//! The document consumed by box generation, and the box-generation
//! algorithm.
use vstd::prelude::*;
use crate::box_tree::{BoxFlags, BoxNode, BoxNodeKind, BoxTree, ComputedProperties, BLOCK_LEVEL, CONTAINER, INLINE_LEVEL, ROOT, RUN_IN_LEVEL};
use crate::display::{box_of, box_bits, decoded_inner, family_bits, outer_bits, outside_of, spec_inner, spec_outer, Display, DisplayBox, DisplayInside, DisplayOutside};
use crate::formatting_context::{FormattingContext, FormattingContextId, InlineFormattingContext};
use crate::style::{blockify, inlinify, spec_blockify, Properties};
use crate::text::TextSequence;
use crate::tree::{NodeId, Tree};

verus! {

#[derive(Clone, Copy, PartialEq, Eq, Structural, Debug)]
pub enum NodeKind {
    Element,
    Text,
}

#[derive(Clone, Copy, PartialEq, Eq, Structural, Debug)]
pub struct Element;

#[derive(Clone, Copy, PartialEq, Eq, Structural, Debug)]
pub struct Text;

/// A styled document: a tree of elements and texts with their computed
/// properties.
pub struct Document {
    pub tree: Tree,
    pub kinds: Vec<NodeKind>,
    pub texts: Vec<Option<TextSequence>>,
    pub styles: Vec<Properties>,
}

impl Document {
    pub open spec fn len(&self) -> int {
        self.tree.len()
    }

    pub open spec fn valid(&self, n: NodeId) -> bool {
        n.0 < self.len()
    }

    pub open spec fn wf(&self) -> bool {
        &&& self.tree.wf()
        &&& self.kinds@.len() == self.len()
        &&& self.texts@.len() == self.len()
        &&& self.styles@.len() == self.len()
    }

    pub fn new() -> (r: Document)
        ensures
            r.wf(),
            r.len() == 0,
    {
        Document { tree: Tree::new(), kinds: Vec::new(), texts: Vec::new(), styles: Vec::new() }
    }

    fn add_node(&mut self, kind: NodeKind, text: Option<TextSequence>, props: Properties, parent: Option<NodeId>) -> (r:
        NodeId)
        requires
            old(self).wf(),
            old(self).len() < usize::MAX - 1,
            match parent {
                Some(p) => old(self).valid(p),
                None => true,
            },
        ensures
            final(self).wf(),
            r.0 == old(self).len(),
            final(self).len() == old(self).len() + 1,
            final(self).kinds@ == old(self).kinds@.push(kind),
            final(self).styles@ == old(self).styles@.push(props),
            match parent {
                Some(p) => final(self).tree.children(p.0 as int) == old(self).tree.children(p.0 as int).push(r),
                None => true,
            },
    {
        let n = self.tree.bind_edges();
        self.kinds.push(kind);
        self.texts.push(text);
        self.styles.push(props);
        match parent {
            Some(p) => {
                proof {
                    if let Some(h) = old(self).tree.kid(p.0 as int) {
                        assert(self.tree.succ@[h.0 as int] == old(self).tree.succ@[h.0 as int]);
                    }
                }
                self.tree.attach_child(p, n);
            },
            None => {},
        }
        n
    }

    /// Adds an element with the given computed properties, as the last child
    /// of `parent` if given.
    pub fn add_element(&mut self, props: Properties, parent: Option<NodeId>) -> (r: NodeId)
        requires
            old(self).wf(),
            old(self).len() < usize::MAX - 1,
            match parent {
                Some(p) => old(self).valid(p),
                None => true,
            },
        ensures
            final(self).wf(),
            r.0 == old(self).len(),
            final(self).len() == old(self).len() + 1,
            final(self).kinds@ == old(self).kinds@.push(NodeKind::Element),
            final(self).styles@ == old(self).styles@.push(props),
            match parent {
                Some(p) => final(self).tree.children(p.0 as int) == old(self).tree.children(p.0 as int).push(r),
                None => true,
            },
    {
        self.add_node(NodeKind::Element, None, props, parent)
    }

    /// Adds a text node, as the last child of `parent` if given.
    pub fn add_text(&mut self, text: &str, props: Properties, parent: Option<NodeId>) -> (r: NodeId)
        requires
            old(self).wf(),
            old(self).len() < usize::MAX - 1,
            match parent {
                Some(p) => old(self).valid(p),
                None => true,
            },
        ensures
            final(self).wf(),
            r.0 == old(self).len(),
            final(self).len() == old(self).len() + 1,
            final(self).kinds@ == old(self).kinds@.push(NodeKind::Text),
            final(self).styles@ == old(self).styles@.push(props),
            match parent {
                Some(p) => final(self).tree.children(p.0 as int) == old(self).tree.children(p.0 as int).push(r),
                None => true,
            },
    {
        self.add_node(NodeKind::Text, Some(TextSequence::from_str(text)), props, parent)
    }

    pub fn kind(&self, n: NodeId) -> (r: NodeKind)
        requires
            self.wf(),
            self.valid(n),
        ensures
            r == self.kinds@[n.0 as int],
    {
        self.kinds[n.0]
    }
}

/// Display types that box generation does not implement.
#[derive(Clone, Copy, PartialEq, Eq, Structural, Debug)]
pub enum Unsupported {
    Contents,
    Table,
    Flex,
    Grid,
    Ruby,
    Internal,
}

#[derive(Clone, Copy, PartialEq, Eq, Structural, Debug)]
pub enum GenerationError {
    /// The display type of an element is not implemented.
    NotImplemented(Unsupported),
    /// The box tree cannot hold more boxes.
    TooManyBoxes,
}

/// What box generation does with an element of a given display.
#[derive(Clone, Copy, PartialEq, Eq, Structural, Debug)]
pub enum BoxPlan {
    /// No box, and nothing for the subtree (`display: none`).
    Skip,
    /// A display type that is not implemented.
    Fail(Unsupported),
    /// One box with these flags; `true` when it establishes a new block
    /// formatting context.
    Make(BoxFlags, bool),
}

/// The box plan of `d`: the outer type defaults to `block` and the inner
/// type to `flow`; a `flow` box is a block container, an inline box or a
/// run-in box after its outer type; a `flow-root` box is a block container
/// that establishes a block formatting context. A list item is planned by
/// its outer and inner types (its marker box is not generated).
pub open spec fn box_plan(d: Display) -> BoxPlan {
    if family_bits(d.0) == 2 {
        if box_of(box_bits(d.0)) == Some(DisplayBox::Contents) {
            BoxPlan::Fail(Unsupported::Contents)
        } else {
            BoxPlan::Skip
        }
    } else if family_bits(d.0) == 1 {
        BoxPlan::Fail(Unsupported::Internal)
    } else {
        let outer = match outside_of(outer_bits(d.0)) {
            Some(o) => o,
            None => DisplayOutside::Block,
        };
        let inner = match decoded_inner(d.0) {
            Some(i) => i,
            None => DisplayInside::Flow,
        };
        match inner {
            DisplayInside::Flow => match outer {
                DisplayOutside::Block => BoxPlan::Make(BoxFlags(BLOCK_LEVEL | CONTAINER), false),
                DisplayOutside::Inline => BoxPlan::Make(BoxFlags(INLINE_LEVEL), false),
                DisplayOutside::RunIn => BoxPlan::Make(BoxFlags(RUN_IN_LEVEL), false),
            },
            DisplayInside::FlowRoot => BoxPlan::Make(BoxFlags(BLOCK_LEVEL | CONTAINER), true),
            DisplayInside::Table => BoxPlan::Fail(Unsupported::Table),
            DisplayInside::Flex => BoxPlan::Fail(Unsupported::Flex),
            DisplayInside::Grid => BoxPlan::Fail(Unsupported::Grid),
            DisplayInside::Ruby => BoxPlan::Fail(Unsupported::Ruby),
        }
    }
}

pub fn plan_box(d: Display) -> (r: BoxPlan)
    ensures
        r == box_plan(d),
{
    let family = d.0 & 3;
    if family == 2 {
        if d.display_box() == Some(DisplayBox::Contents) {
            return BoxPlan::Fail(Unsupported::Contents);
        }
        return BoxPlan::Skip;
    }
    if family == 1 {
        return BoxPlan::Fail(Unsupported::Internal);
    }
    let (o, i) = d.parts();
    let outer = match o {
        Some(o) => o,
        None => DisplayOutside::Block,
    };
    let inner = match i {
        Some(i) => i,
        None => DisplayInside::Flow,
    };
    match inner {
        DisplayInside::Flow => match outer {
            DisplayOutside::Block => BoxPlan::Make(BoxFlags(BLOCK_LEVEL | CONTAINER), false),
            DisplayOutside::Inline => BoxPlan::Make(BoxFlags(INLINE_LEVEL), false),
            DisplayOutside::RunIn => BoxPlan::Make(BoxFlags(RUN_IN_LEVEL), false),
        },
        DisplayInside::FlowRoot => BoxPlan::Make(BoxFlags(BLOCK_LEVEL | CONTAINER), true),
        DisplayInside::Table => BoxPlan::Fail(Unsupported::Table),
        DisplayInside::Flex => BoxPlan::Fail(Unsupported::Flex),
        DisplayInside::Grid => BoxPlan::Fail(Unsupported::Grid),
        DisplayInside::Ruby => BoxPlan::Fail(Unsupported::Ruby),
    }
}

/// What box generation keeps of the box tree it extends: every node it had
/// keeps its kind and properties, a detached node outside `except` stays
/// detached, and no node older than `from` gains a formatting context.
pub open spec fn extends(old: &BoxTree, new: &BoxTree, except: Seq<NodeId>) -> bool {
    &&& new.len() >= old.len()
    &&& forall|n: NodeId| old.valid(n) ==> #[trigger] new.kind_of(n) == old.kind_of(n)
    &&& forall|n: NodeId| old.valid(n) ==> #[trigger] new.computed_values.get(n) == old.computed_values.get(n)
    &&& forall|n: NodeId|
        old.valid(n) ==> #[trigger] new.formatting_contexts.established_by(n)
            == old.formatting_contexts.established_by(n)
    &&& forall|d: NodeId| old.valid(d) && !except.contains(d) && #[trigger] old.tree.detached(d) ==> new.tree.detached(d)
}

/// Wraps `run` in a new anonymous block-level box that shares (aliases)
/// the computed properties of `parent`, and appends that box to `parent`'s
/// children.
pub fn wrap_in_anonymous_box(bt: &mut BoxTree, parent: BoxNode, run: &Vec<BoxNode>) -> (r: Result<(), GenerationError>)
    requires
        old(bt).wf(),
        old(bt).valid(parent),
        run@.no_duplicates(),
        forall|k: int|
            0 <= k < run@.len() ==> old(bt).valid(#[trigger] run@[k]) && run@[k] != parent && old(bt).tree.detached(
                run@[k],
            ),
    ensures
        final(bt).wf(),
        extends(old(bt), final(bt), run@),
        r is Err <==> old(bt).len() >= usize::MAX - 2,
        r is Err ==> r == Err::<(), GenerationError>(GenerationError::TooManyBoxes) && *final(bt) == *old(bt),
        r is Ok ==> {
            let a = NodeId(old(bt).len() as usize);
            &&& final(bt).len() == old(bt).len() + 1
            &&& final(bt).kind_of(a) == BoxNodeKind::Box(BoxFlags(BLOCK_LEVEL))
            &&& final(bt).computed_values.slot(a) == old(bt).computed_values.slot(parent)
            &&& final(bt).tree.children(a.0 as int) == run@
            &&& final(bt).tree.par(a.0 as int) == Some(parent)
            &&& final(bt).tree.children(parent.0 as int) == old(bt).tree.children(parent.0 as int).push(a)
            &&& forall|k: int| 0 <= k < run@.len() ==> final(bt).tree.par((#[trigger] run@[k]).0 as int) == Some(a)
            &&& forall|q: int|
                0 <= q < old(bt).len() && q != parent.0 ==> #[trigger] final(bt).tree.children(q) == old(
                    bt,
                ).tree.children(q)
            &&& forall|x: int|
                0 <= x < old(bt).len() && !run@.contains(NodeId(x as usize)) ==> #[trigger] final(bt).tree.par(x)
                    == old(bt).tree.par(x)
            &&& forall|x: NodeId| x != a ==> #[trigger] final(bt).computed_values.slot(x) == old(
                bt,
            ).computed_values.slot(x)
        },
{
    if bt.node_count() >= usize::MAX - 2 {
        return Err(GenerationError::TooManyBoxes);
    }
    let anon = bt.insert_box(BoxFlags::block_level(), ComputedProperties::SameAs(parent), None);
    let ghost b1: BoxTree = *bt;
    proof {
        assert forall|k: int| 0 <= k < run@.len() implies b1.valid(#[trigger] run@[k]) && run@[k] != anon
            && b1.tree.detached(run@[k]) by {
            assert(old(bt).valid(run@[k]));
        }
        assert(b1.tree.children(anon.0 as int) == Seq::<NodeId>::empty());
        assert forall|q: int| 0 <= q < old(bt).len() implies #[trigger] b1.tree.children(q) == old(bt).tree.children(q) by {
            assert(b1.tree.kid(q) == old(bt).tree.kid(q));
            if let Some(h) = old(bt).tree.kid(q) {
                assert(b1.tree.succ@[h.0 as int] == old(bt).tree.succ@[h.0 as int]);
            }
        }
        assert forall|x: int| 0 <= x < old(bt).len() implies #[trigger] b1.tree.par(x) == old(bt).tree.par(x) by {
            assert(b1.tree.edges@[x] == old(bt).tree.edges@[x]);
        }
    }
    bt.tree.attach_children(anon, run);
    let ghost b2: BoxTree = *bt;
    proof {
        assert(b2.tree.detached(anon)) by {
            assert(b1.tree.detached(anon));
            assert(!run@.contains(anon));
        }
    }
    bt.tree.attach_child(parent, anon);
    proof {
        assert forall|d: NodeId| old(bt).valid(d) && !run@.contains(d) && #[trigger] old(bt).tree.detached(d) implies bt.tree.detached(d) by {
            assert(b1.tree.detached(d));
            assert(b2.tree.detached(d));
            assert(d != anon);
        }
        assert forall|n: NodeId| old(bt).valid(n) implies #[trigger] bt.computed_values.get(n) == old(bt).computed_values.get(n) by {
            assert(n != anon);
        }
        assert forall|n: NodeId| old(bt).valid(n) implies #[trigger] bt.kind_of(n) == old(bt).kind_of(n) by {
            assert(old(bt).kinds@[n.0 as int] == b1.kinds@[n.0 as int]);
        }
        assert(anon == NodeId(old(bt).len() as usize));
        assert(bt.tree.children(anon.0 as int) == b2.tree.children(anon.0 as int));
        assert(b2.tree.children(anon.0 as int) =~= run@);
        assert forall|q: int| 0 <= q < old(bt).len() && q != parent.0 implies #[trigger] bt.tree.children(q)
            == old(bt).tree.children(q) by {
            assert(b1.tree.children(q) == old(bt).tree.children(q));
            assert(b2.tree.children(q) == b1.tree.children(q));
        }
        assert(b2.tree.children(parent.0 as int) == b1.tree.children(parent.0 as int));
        assert(b1.tree.children(parent.0 as int) == old(bt).tree.children(parent.0 as int));
        assert forall|k: int| 0 <= k < run@.len() implies bt.tree.par((#[trigger] run@[k]).0 as int) == Some(anon) by {
            assert(run@[k] != anon);
        }
        assert forall|x: int| 0 <= x < old(bt).len() && !run@.contains(NodeId(x as usize)) implies #[trigger] bt.tree.par(x)
            == old(bt).tree.par(x) by {
            assert(b1.tree.par(x) == old(bt).tree.par(x));
            assert(b2.tree.par(x) == b1.tree.par(x));
        }
    }
    Ok(())
}

/// Whether attaching `children` under `parent` needs anonymous block
/// boxes: `parent` is a block container and `children` mix inline-level
/// and other boxes.
pub fn needs_anonymous_boxes(bt: &BoxTree, parent: BoxNode, children: &Vec<BoxNode>) -> (r: bool)
    requires
        bt.wf(),
        bt.valid(parent),
        forall|k: int| 0 <= k < children@.len() ==> bt.valid(#[trigger] children@[k]),
    ensures
        r == (bt.kind_of(parent).spec_block_container() && (exists|k: int|
            0 <= k < children@.len() && (#[trigger] bt.kind_of(children@[k])).spec_inline_level()) && (exists|k: int|
            0 <= k < children@.len() && !(#[trigger] bt.kind_of(children@[k])).spec_inline_level())),
{
    let container = bt.kind(parent).is_block_container();
    let mut has_inline = false;
    let mut has_other = false;
    let mut i: usize = 0;
    while i < children.len()
        invariant
            bt.wf(),
            forall|k: int| 0 <= k < children@.len() ==> bt.valid(#[trigger] children@[k]),
            i <= children.len(),
            has_inline == exists|k: int| 0 <= k < i && (#[trigger] bt.kind_of(children@[k])).spec_inline_level(),
            has_other == exists|k: int| 0 <= k < i && !(#[trigger] bt.kind_of(children@[k])).spec_inline_level(),
        decreases children.len() - i,
    {
        if bt.kind(children[i]).is_inline_level() {
            has_inline = true;
        } else {
            has_other = true;
        }
        i = i + 1;
    }
    container && has_inline && has_other
}

/// When the parent `p` of `box_node` is a block container with an
/// inline-level child, puts a new anonymous block-level box in the place of
/// `box_node` among `p`'s children, with `box_node` as its only child; the
/// new box shares (aliases) `p`'s computed properties. Returns whether it
/// did so.
pub fn check_if_anonymous_box_is_required(bt: &mut BoxTree, box_node: BoxNode) -> (r: Result<bool, GenerationError>)
    requires
        old(bt).wf(),
        old(bt).valid(box_node),
        old(bt).tree.listed(box_node.0 as int),
        !old(bt).tree.children(old(bt).tree.par(box_node.0 as int).unwrap().0 as int).contains(
            old(bt).tree.par(box_node.0 as int).unwrap(),
        ),
    ensures
        final(bt).wf(),
        ({
            let p = old(bt).tree.par(box_node.0 as int).unwrap();
            let c = old(bt).tree.children(p.0 as int);
            let a = NodeId(old(bt).len() as usize);
            let required = old(bt).kind_of(p).spec_block_container() && old(bt).some_inline_child(p);
            &&& !required ==> r == Ok::<bool, GenerationError>(false) && *final(bt) == *old(bt)
            &&& required && old(bt).len() >= usize::MAX - 2 ==> r == Err::<bool, GenerationError>(
                GenerationError::TooManyBoxes,
            ) && *final(bt) == *old(bt)
            &&& required && old(bt).len() < usize::MAX - 2 ==> {
                &&& r == Ok::<bool, GenerationError>(true)
                &&& final(bt).len() == old(bt).len() + 1
                &&& final(bt).kind_of(a) == BoxNodeKind::Box(BoxFlags(BLOCK_LEVEL))
                &&& final(bt).computed_values.slot(a) == old(bt).computed_values.slot(p)
                &&& final(bt).tree.children(p.0 as int) == c.update(c.index_of(box_node), a)
                &&& final(bt).tree.children(a.0 as int) == seq![box_node]
                &&& final(bt).tree.par(box_node.0 as int) == Some(a)
                &&& final(bt).tree.par(a.0 as int) == Some(p)
                &&& forall|x: NodeId| x != a ==> #[trigger] final(bt).computed_values.slot(x)
                    == old(bt).computed_values.slot(x)
            }
        }),
{
    let p = bt.tree.parent(box_node).unwrap();
    if !(bt.kind(p).is_block_container() && bt.has_inline_level_boxes(p)) {
        return Ok(false);
    }
    if bt.node_count() >= usize::MAX - 2 {
        return Err(GenerationError::TooManyBoxes);
    }
    let a = bt.insert_box(BoxFlags::block_level(), ComputedProperties::SameAs(p), None);
    let ghost b1: BoxTree = *bt;
    proof {
        assert(b1.tree.children(p.0 as int) == old(bt).tree.children(p.0 as int)) by {
            assert(b1.tree.kid(p.0 as int) == old(bt).tree.kid(p.0 as int));
            if let Some(h) = old(bt).tree.kid(p.0 as int) {
                assert(b1.tree.succ@[h.0 as int] == old(bt).tree.succ@[h.0 as int]);
            }
        }
        assert(b1.tree.par(box_node.0 as int) == old(bt).tree.par(box_node.0 as int)) by {
            assert(b1.tree.edges@[box_node.0 as int] == old(bt).tree.edges@[box_node.0 as int]);
        }
        assert(b1.tree.listed(box_node.0 as int));
    }
    bt.tree.push_parent(box_node, a);
    Ok(true)
}

/// Where a generated child `c` of `parent` ends up: an inline-level child
/// under a box made after `b0`, any other child directly under `parent`.
pub open spec fn placed(b0: &BoxTree, bt: &BoxTree, parent: BoxNode, c: BoxNode) -> bool {
    if b0.kind_of(c).spec_inline_level() {
        match bt.tree.par(c.0 as int) {
            Some(a) => b0.len() <= a.0 < bt.len() && bt.tree.children(a.0 as int).contains(c),
            None => false,
        }
    } else {
        bt.tree.par(c.0 as int) == Some(parent) && bt.tree.children(parent.0 as int).contains(c)
    }
}

/// Every box made after `b0` is an anonymous block-level child of `parent`
/// that shares `parent`'s computed properties.
pub open spec fn anonymous_boxes(b0: &BoxTree, bt: &BoxTree, parent: BoxNode) -> bool {
    forall|a: NodeId|
        b0.len() <= a.0 < bt.len() ==> {
            &&& #[trigger] bt.kind_of(a) == BoxNodeKind::Box(BoxFlags(BLOCK_LEVEL))
            &&& bt.computed_values.slot(a) == b0.computed_values.slot(parent)
            &&& bt.tree.par(a.0 as int) == Some(parent)
            &&& bt.tree.children(parent.0 as int).contains(a)
        }
}

/// Whether `children` under `parent` need anonymous boxes.
pub open spec fn anonymous_box_required(bt: &BoxTree, parent: BoxNode, children: Seq<BoxNode>) -> bool {
    bt.kind_of(parent).spec_block_container() && (exists|k: int|
        0 <= k < children.len() && (#[trigger] bt.kind_of(children[k])).spec_inline_level()) && (exists|k: int|
        0 <= k < children.len() && !(#[trigger] bt.kind_of(children[k])).spec_inline_level())
}

/// Attaches the generated `children` under `parent`. In a block container
/// with both inline-level and block-level children, each run of
/// consecutive inline-level children is first wrapped in an anonymous
/// block-level box that shares the container's properties.
pub fn attach_generated_children(bt: &mut BoxTree, parent: BoxNode, children: &Vec<BoxNode>) -> (r: Result<
    (),
    GenerationError,
>)
    requires
        old(bt).wf(),
        old(bt).valid(parent),
        forall|k: int|
            0 <= k < children@.len() ==> old(bt).valid(#[trigger] children@[k]) && children@[k] != parent
                && old(bt).tree.detached(children@[k]),
        forall|j: int, k: int| 0 <= j < k < children@.len() ==> (#[trigger] children@[j]).0 < (#[trigger] children@[k]).0,
    ensures
        final(bt).wf(),
        extends(old(bt), final(bt), children@),
        r is Err ==> r == Err::<(), GenerationError>(GenerationError::TooManyBoxes) && final(bt).len() >= usize::MAX - 2,
        !anonymous_box_required(old(bt), parent, children@) ==> r is Ok && final(bt).len() == old(bt).len()
            && final(bt).tree.children(parent.0 as int) == old(bt).tree.children(parent.0 as int) + children@,
        anonymous_box_required(old(bt), parent, children@) && r is Ok ==> {
            &&& anonymous_boxes(old(bt), final(bt), parent)
            &&& forall|k: int| 0 <= k < children@.len() ==> placed(old(bt), final(bt), parent, #[trigger] children@[k])
        },
{
    let wrap = needs_anonymous_boxes(bt, parent, children);
    proof {
        assert(children@.no_duplicates()) by {
            assert forall|j: int, k: int| 0 <= j < children@.len() && 0 <= k < children@.len() && j != k implies children@[j] != children@[k] by {
                if j < k {
                    assert(children@[j].0 < children@[k].0);
                } else {
                    assert(children@[k].0 < children@[j].0);
                }
            }
        }
    }
    assert(wrap == anonymous_box_required(bt, parent, children@));
    if !wrap {
        bt.tree.attach_children(parent, children);
        assert(bt.tree.children(parent.0 as int) == old(bt).tree.children(parent.0 as int) + children@);
        return Ok(());
    }
    let ghost b0: BoxTree = *bt;
    let mut run: Vec<BoxNode> = Vec::new();
    let mut i: usize = 0;
    while i < children.len()
        invariant
            bt.wf(),
            b0.wf(),
            b0 == *old(bt),
            bt.valid(parent),
            extends(&b0, bt, children@),
            i <= children.len(),
            forall|k: int|
                0 <= k < children@.len() ==> b0.valid(#[trigger] children@[k]) && children@[k] != parent
                    && b0.tree.detached(children@[k]),
            forall|j: int, k: int| 0 <= j < k < children@.len() ==> (#[trigger] children@[j]).0 < (#[trigger] children@[k]).0,
            forall|k: int| i <= k < children@.len() ==> bt.tree.detached(#[trigger] children@[k]),
            forall|k: int| 0 <= k < run@.len() ==> bt.tree.detached(#[trigger] run@[k]),
            forall|k: int| 0 <= k < run@.len() ==> exists|j: int| 0 <= j < i && #[trigger] run@[k] == children@[j],
            forall|j: int, k: int| 0 <= j < k < run@.len() ==> (#[trigger] run@[j]).0 < (#[trigger] run@[k]).0,
            anonymous_boxes(&b0, bt, parent),
            forall|j: int| 0 <= j < i ==> run@.contains(#[trigger] children@[j]) || placed(&b0, bt, parent, children@[j]),
            forall|k: int| 0 <= k < run@.len() ==> b0.kind_of(#[trigger] run@[k]).spec_inline_level(),
            bt.computed_values.slot(parent) == b0.computed_values.slot(parent),
            wrap,
            anonymous_box_required(&b0, parent, children@),
            b0.valid(parent),
        decreases children.len() - i,
    {
        let c = children[i];
        if bt.kind(c).is_inline_level() {
            let ghost r0 = run@;
            run.push(c);
            proof {
                assert forall|k: int| 0 <= k < run@.len() implies exists|j: int| 0 <= j < i + 1 && #[trigger] run@[k] == children@[j] by {
                    if k < r0.len() {
                        let j = choose|j: int| 0 <= j < i && r0[k] == children@[j];
                        assert(run@[k] == children@[j]);
                    } else {
                        assert(run@[k] == children@[i as int]);
                    }
                }
                assert forall|j: int, k: int| 0 <= j < k < run@.len() implies (#[trigger] run@[j]).0 < (#[trigger] run@[k]).0 by {
                    if k == r0.len() {
                        let jj = choose|jj: int| 0 <= jj < i && r0[j] == children@[jj];
                        assert(children@[jj].0 < children@[i as int].0);
                    }
                }
                assert forall|j: int| 0 <= j < i + 1 implies run@.contains(#[trigger] children@[j]) || placed(
                    &b0,
                    bt,
                    parent,
                    children@[j],
                ) by {
                    if j == i {
                        assert(run@[r0.len() as int] == c);
                    } else if r0.contains(children@[j]) {
                        let kk = choose|kk: int| 0 <= kk < r0.len() && r0[kk] == children@[j];
                        assert(run@[kk] == children@[j]);
                    }
                }
                assert(b0.kind_of(c) == bt.kind_of(c));
                assert forall|k: int| 0 <= k < run@.len() implies b0.kind_of(#[trigger] run@[k]).spec_inline_level() by {
                    if k < r0.len() {
                        assert(run@[k] == r0[k]);
                    }
                }
            }
        } else {
            if run.len() > 0 {
                let ghost before: BoxTree = *bt;
                proof {
                    assert(run@.no_duplicates()) by {
                        assert forall|j: int, k: int| 0 <= j < run@.len() && 0 <= k < run@.len() && j != k implies run@[j] != run@[k] by {
                            if j < k {
                                assert(run@[j].0 < run@[k].0);
                            } else {
                                assert(run@[k].0 < run@[j].0);
                            }
                        }
                    }
                    assert forall|k: int| 0 <= k < run@.len() implies before.valid(#[trigger] run@[k]) && run@[k] != parent && before.tree.detached(run@[k]) by {
                        let j = choose|j: int| 0 <= j < i && run@[k] == children@[j];
                        assert(b0.valid(children@[j]));
                    }
                }
                let w = wrap_in_anonymous_box(bt, parent, &run);
                if w.is_err() {
                    return w;
                }
                proof {
                    assert forall|k: int| i <= k < children@.len() implies bt.tree.detached(#[trigger] children@[k]) by {
                        assert(before.tree.detached(children@[k]));
                        if run@.contains(children@[k]) {
                            let kk = choose|kk: int| 0 <= kk < run@.len() && run@[kk] == children@[k];
                            let j = choose|j: int| 0 <= j < i && run@[kk] == children@[j];
                            assert(children@[j].0 < children@[k].0);
                        }
                    }
                    assert forall|d: NodeId| b0.valid(d) && !children@.contains(d) && #[trigger] b0.tree.detached(d) implies bt.tree.detached(d) by {
                        assert(before.tree.detached(d));
                        if run@.contains(d) {
                            let kk = choose|kk: int| 0 <= kk < run@.len() && run@[kk] == d;
                            let j = choose|j: int| 0 <= j < i && run@[kk] == children@[j];
                        }
                    }
                    assert forall|n: NodeId| b0.valid(n) implies #[trigger] bt.kind_of(n) == b0.kind_of(n) by {
                        assert(before.kind_of(n) == b0.kind_of(n));
                    }
                    assert forall|n: NodeId| b0.valid(n) implies #[trigger] bt.computed_values.get(n) == b0.computed_values.get(n) by {
                        assert(before.computed_values.get(n) == b0.computed_values.get(n));
                    }
                    assert forall|n: NodeId| b0.valid(n) implies #[trigger] bt.formatting_contexts.established_by(n)
                        == b0.formatting_contexts.established_by(n) by {
                        assert(before.formatting_contexts.established_by(n) == b0.formatting_contexts.established_by(n));
                    }
                    assert(extends(&b0, bt, children@));
                    let a = NodeId(before.len() as usize);
                    assert forall|x: NodeId| b0.len() <= x.0 < bt.len() implies {
                        &&& #[trigger] bt.kind_of(x) == BoxNodeKind::Box(BoxFlags(BLOCK_LEVEL))
                        &&& bt.computed_values.slot(x) == b0.computed_values.slot(parent)
                        &&& bt.tree.par(x.0 as int) == Some(parent)
                        &&& bt.tree.children(parent.0 as int).contains(x)
                    } by {
                        if x != a {
                            assert(before.kind_of(x) == BoxNodeKind::Box(BoxFlags(BLOCK_LEVEL)));
                            assert(bt.kind_of(x) == before.kind_of(x));
                            assert(!run@.contains(x)) by {
                                if run@.contains(x) {
                                    let kk = choose|kk: int| 0 <= kk < run@.len() && run@[kk] == x;
                                    let j = choose|j: int| 0 <= j < i && run@[kk] == children@[j];
                                    assert(b0.valid(children@[j]));
                                }
                            }
                            let cp = before.tree.children(parent.0 as int);
                            let w = choose|w: int| 0 <= w < cp.len() && cp[w] == x;
                            assert(bt.tree.children(parent.0 as int)[w] == x);
                        } else {
                            let cp = bt.tree.children(parent.0 as int);
                            assert(cp[cp.len() - 1] == a);
                        }
                    }
                    assert forall|j: int| 0 <= j < i implies placed(&b0, bt, parent, #[trigger] children@[j]) by {
                        let cj = children@[j];
                        assert(b0.valid(cj));
                        assert(before.valid(cj));
                        if run@.contains(cj) {
                            let kk = choose|kk: int| 0 <= kk < run@.len() && run@[kk] == cj;
                            assert(bt.tree.par(cj.0 as int) == Some(a));
                            assert(bt.tree.children(a.0 as int)[kk] == cj);
                        } else {
                            assert(placed(&b0, &before, parent, cj));
                            assert(bt.tree.par(cj.0 as int) == before.tree.par(cj.0 as int));
                            if b0.kind_of(cj).spec_inline_level() {
                                let pa = before.tree.par(cj.0 as int).unwrap();
                                assert(pa != parent) by {
                                    assert(b0.valid(parent));
                                }
                                assert(bt.tree.children(pa.0 as int) == before.tree.children(pa.0 as int));
                            } else {
                                let cp = before.tree.children(parent.0 as int);
                                let w = choose|w: int| 0 <= w < cp.len() && cp[w] == cj;
                                assert(bt.tree.children(parent.0 as int)[w] == cj);
                            }
                        }
                    }
                }
                run = Vec::new();
            }
            let ghost before2: BoxTree = *bt;
            proof {
                assert(bt.valid(c));
                assert(bt.tree.detached(c));
            }
            bt.tree.attach_child(parent, c);
            proof {
                assert(before2.kind_of(c) == b0.kind_of(c));
                assert(!b0.kind_of(c).spec_inline_level());
                assert forall|x: NodeId| b0.len() <= x.0 < bt.len() implies {
                    &&& #[trigger] bt.kind_of(x) == BoxNodeKind::Box(BoxFlags(BLOCK_LEVEL))
                    &&& bt.computed_values.slot(x) == b0.computed_values.slot(parent)
                    &&& bt.tree.par(x.0 as int) == Some(parent)
                    &&& bt.tree.children(parent.0 as int).contains(x)
                } by {
                    assert(before2.kind_of(x) == BoxNodeKind::Box(BoxFlags(BLOCK_LEVEL)));
                    assert(x != c);
                    let cp = before2.tree.children(parent.0 as int);
                    let w = choose|w: int| 0 <= w < cp.len() && cp[w] == x;
                    assert(bt.tree.children(parent.0 as int)[w] == x);
                }
                assert forall|j: int| 0 <= j < i + 1 implies run@.contains(#[trigger] children@[j]) || placed(
                    &b0,
                    bt,
                    parent,
                    children@[j],
                ) by {
                    let cj = children@[j];
                    if j == i {
                        let cp = bt.tree.children(parent.0 as int);
                        assert(cp[cp.len() - 1] == c);
                    } else if !run@.contains(cj) {
                        assert(placed(&b0, &before2, parent, cj));
                        assert(cj != c) by {
                            assert(children@[j].0 < children@[i as int].0);
                        }
                        if b0.kind_of(cj).spec_inline_level() {
                            let pa = before2.tree.par(cj.0 as int).unwrap();
                            assert(pa != parent) by {
                                assert(b0.valid(parent));
                            }
                            assert(bt.tree.children(pa.0 as int) == before2.tree.children(pa.0 as int));
                        } else {
                            let cp = before2.tree.children(parent.0 as int);
                            let w = choose|w: int| 0 <= w < cp.len() && cp[w] == cj;
                            assert(bt.tree.children(parent.0 as int)[w] == cj);
                        }
                    }
                }
                assert forall|k: int| i + 1 <= k < children@.len() implies bt.tree.detached(#[trigger] children@[k]) by {
                    assert(before2.tree.detached(children@[k]));
                    assert(children@[i as int].0 < children@[k].0);
                }
                assert forall|d: NodeId| b0.valid(d) && !children@.contains(d) && #[trigger] b0.tree.detached(d) implies bt.tree.detached(d) by {
                    assert(before2.tree.detached(d));
                    assert(d != c);
                }
                assert forall|k: int| 0 <= k < run@.len() implies bt.tree.detached(#[trigger] run@[k]) by {
                    assert(before2.tree.detached(run@[k]));
                    let j = choose|j: int| 0 <= j < i && run@[k] == children@[j];
                    assert(children@[j].0 < children@[i as int].0);
                }
                assert forall|n: NodeId| b0.valid(n) implies #[trigger] bt.kind_of(n) == b0.kind_of(n) by {
                    assert(before2.kind_of(n) == b0.kind_of(n));
                }
                assert forall|n: NodeId| b0.valid(n) implies #[trigger] bt.computed_values.get(n) == b0.computed_values.get(n) by {
                    assert(before2.computed_values.get(n) == b0.computed_values.get(n));
                }
                assert forall|n: NodeId| b0.valid(n) implies #[trigger] bt.formatting_contexts.established_by(n)
                    == b0.formatting_contexts.established_by(n) by {
                    assert(before2.formatting_contexts.established_by(n) == b0.formatting_contexts.established_by(n));
                }
            }
        }
        i = i + 1;
    }
    if run.len() > 0 {
        let ghost before: BoxTree = *bt;
        proof {
            assert(run@.no_duplicates()) by {
                assert forall|j: int, k: int| 0 <= j < run@.len() && 0 <= k < run@.len() && j != k implies run@[j] != run@[k] by {
                    if j < k {
                        assert(run@[j].0 < run@[k].0);
                    } else {
                        assert(run@[k].0 < run@[j].0);
                    }
                }
            }
            assert forall|k: int| 0 <= k < run@.len() implies before.valid(#[trigger] run@[k]) && run@[k] != parent && before.tree.detached(run@[k]) by {
                let j = choose|j: int| 0 <= j < i && run@[k] == children@[j];
                assert(b0.valid(children@[j]));
            }
        }
        let w = wrap_in_anonymous_box(bt, parent, &run);
        if w.is_err() {
            return w;
        }
        proof {
            assert forall|d: NodeId| b0.valid(d) && !children@.contains(d) && #[trigger] b0.tree.detached(d) implies bt.tree.detached(d) by {
                assert(before.tree.detached(d));
                if run@.contains(d) {
                    let kk = choose|kk: int| 0 <= kk < run@.len() && run@[kk] == d;
                    let j = choose|j: int| 0 <= j < i && run@[kk] == children@[j];
                }
            }
            let a = NodeId(before.len() as usize);
            assert forall|x: NodeId| b0.len() <= x.0 < bt.len() implies {
                &&& #[trigger] bt.kind_of(x) == BoxNodeKind::Box(BoxFlags(BLOCK_LEVEL))
                &&& bt.computed_values.slot(x) == b0.computed_values.slot(parent)
                &&& bt.tree.par(x.0 as int) == Some(parent)
                &&& bt.tree.children(parent.0 as int).contains(x)
            } by {
                if x != a {
                    assert(before.kind_of(x) == BoxNodeKind::Box(BoxFlags(BLOCK_LEVEL)));
                    assert(bt.kind_of(x) == before.kind_of(x));
                    assert(!run@.contains(x)) by {
                        if run@.contains(x) {
                            let kk = choose|kk: int| 0 <= kk < run@.len() && run@[kk] == x;
                            let j = choose|j: int| 0 <= j < i && run@[kk] == children@[j];
                            assert(b0.valid(children@[j]));
                        }
                    }
                    let cp = before.tree.children(parent.0 as int);
                    let w = choose|w: int| 0 <= w < cp.len() && cp[w] == x;
                    assert(bt.tree.children(parent.0 as int)[w] == x);
                } else {
                    let cp = bt.tree.children(parent.0 as int);
                    assert(cp[cp.len() - 1] == a);
                }
            }
            assert forall|j: int| 0 <= j < children@.len() implies placed(&b0, bt, parent, #[trigger] children@[j]) by {
                let cj = children@[j];
                assert(b0.valid(cj));
                if run@.contains(cj) {
                    let kk = choose|kk: int| 0 <= kk < run@.len() && run@[kk] == cj;
                    assert(bt.tree.par(cj.0 as int) == Some(a));
                    assert(bt.tree.children(a.0 as int)[kk] == cj);
                } else {
                    assert(placed(&b0, &before, parent, cj));
                    assert(bt.tree.par(cj.0 as int) == before.tree.par(cj.0 as int));
                    if b0.kind_of(cj).spec_inline_level() {
                        let pa = before.tree.par(cj.0 as int).unwrap();
                        assert(bt.tree.children(pa.0 as int) == before.tree.children(pa.0 as int));
                    } else {
                        let cp = before.tree.children(parent.0 as int);
                        let w = choose|w: int| 0 <= w < cp.len() && cp[w] == cj;
                        assert(bt.tree.children(parent.0 as int)[w] == cj);
                    }
                }
            }
        }
    } else {
        assert forall|j: int| 0 <= j < children@.len() implies placed(&b0, bt, parent, #[trigger] children@[j]) by {
            assert(!run@.contains(children@[j]));
        }
    }
    Ok(())
}

/// The id that the next formatting context of `bt` gets.
pub open spec fn new_context_id(bt: &BoxTree) -> FormattingContextId {
    FormattingContextId(bt.formatting_contexts.contexts@.len() as usize)
}

/// After the children of block container `b` are attached: when they are
/// all inline-level, a root inline box sharing `b`'s properties is put
/// between `b` and its children, and `b` records a new inline formatting
/// context (replacing any context it recorded before).
pub fn check_if_a_new_inline_formatting_context_must_be_established(bt: &mut BoxTree, b: BoxNode) -> (r: Result<(), GenerationError>)
    requires
        old(bt).wf(),
        old(bt).valid(b),
    ensures
        final(bt).wf(),
        !(old(bt).kind_of(b).spec_block_container() && old(bt).only_inline_children(b)) ==> r is Ok
            && final(bt).len() == old(bt).len() && final(bt).tree == old(bt).tree
            && final(bt).formatting_contexts == old(bt).formatting_contexts,
        old(bt).kind_of(b).spec_block_container() && old(bt).only_inline_children(b) && r is Ok ==> {
            let root = NodeId(old(bt).len() as usize);
            &&& final(bt).len() == old(bt).len() + 1
            &&& final(bt).kind_of(root) == BoxNodeKind::Box(BoxFlags(INLINE_LEVEL | ROOT))
            &&& final(bt).tree.children(b.0 as int) == seq![root]
            &&& final(bt).tree.children(root.0 as int) == old(bt).tree.children(b.0 as int)
            &&& final(bt).computed_values.slot(root) == old(bt).computed_values.slot(b)
            &&& final(bt).formatting_contexts.contexts@ == old(bt).formatting_contexts.contexts@.push(
                FormattingContext::Inline(InlineFormattingContext),
            )
            &&& final(bt).formatting_contexts.established_by(b) == Some(new_context_id(old(bt)))
        },
        forall|n: NodeId| old(bt).valid(n) && n != b ==> #[trigger] final(bt).formatting_contexts.established_by(n)
            == old(bt).formatting_contexts.established_by(n),
        r is Err <==> old(bt).kind_of(b).spec_block_container() && old(bt).only_inline_children(b) && old(bt).len()
            >= usize::MAX - 2,
        r is Err ==> *final(bt) == *old(bt),
        final(bt).len() >= old(bt).len(),
        forall|n: NodeId| old(bt).valid(n) ==> #[trigger] final(bt).kind_of(n) == old(bt).kind_of(n),
        forall|n: NodeId| old(bt).valid(n) ==> #[trigger] final(bt).computed_values.get(n) == old(bt).computed_values.get(n),
        forall|d: NodeId| old(bt).valid(d) && #[trigger] old(bt).tree.detached(d) ==> final(bt).tree.detached(d),
        r is Err ==> r == Err::<(), GenerationError>(GenerationError::TooManyBoxes),
{
    if !(bt.kind(b).is_block_container() && bt.has_only_inline_level_boxes(b)) {
        return Ok(());
    }
    if bt.node_count() >= usize::MAX - 2 {
        return Err(GenerationError::TooManyBoxes);
    }
    let root = bt.insert_box(BoxFlags::root_inline_box(), ComputedProperties::SameAs(b), None);
    let ghost b1: BoxTree = *bt;
    bt.tree.interpose_child(b, root);
    let ghost b2: BoxTree = *bt;
    bt.formatting_contexts.establish_new_formatting_context(b, FormattingContext::new_inline());
    proof {
        assert(b1.tree.children(b.0 as int) == old(bt).tree.children(b.0 as int)) by {
            assert(b1.tree.kid(b.0 as int) == old(bt).tree.kid(b.0 as int));
            if let Some(h) = old(bt).tree.kid(b.0 as int) {
                assert(b1.tree.succ@[h.0 as int] == old(bt).tree.succ@[h.0 as int]);
            }
        }
        assert(root == NodeId(old(bt).len() as usize));
        assert(bt.kind_of(root) == b1.kind_of(root));
        assert forall|d: NodeId| old(bt).valid(d) && #[trigger] old(bt).tree.detached(d) implies bt.tree.detached(d) by {
            assert(b1.tree.detached(d));
        }
        assert forall|n: NodeId| old(bt).valid(n) implies #[trigger] bt.kind_of(n) == old(bt).kind_of(n) by {
            assert(old(bt).kinds@[n.0 as int] == b1.kinds@[n.0 as int]);
        }
        assert forall|n: NodeId| old(bt).valid(n) implies #[trigger] bt.computed_values.get(n) == old(bt).computed_values.get(n) by {
            assert(n != root);
        }
        assert forall|n: NodeId| old(bt).valid(n) && n != b implies #[trigger] bt.formatting_contexts.established_by(n)
            == old(bt).formatting_contexts.established_by(n) by {
            assert(n != root);
        }
    }
    Ok(())
}

/// What generating the subtree at `node` gives, in `b1` from `b0`: a text
/// node gets a text box; an element follows its box plan; the only other
/// failure is `TooManyBoxes`, and it comes only when the box tree is full.
pub open spec fn generation_outcome(
    doc: &Document,
    node: NodeId,
    b0: &BoxTree,
    b1: &BoxTree,
    r: Result<Option<BoxNode>, GenerationError>,
) -> bool {
    &&& r == Err::<Option<BoxNode>, GenerationError>(GenerationError::TooManyBoxes) ==> b1.len() >= usize::MAX - 2
    &&& b0.len() >= usize::MAX - 2 && r == Err::<Option<BoxNode>, GenerationError>(GenerationError::TooManyBoxes)
        ==> b1.len() == b0.len()
    &&& doc.kinds@[node.0 as int] == NodeKind::Text ==> match r {
        Ok(Some(b)) => b1.kind_of(b) == BoxNodeKind::TextSequence && b1.computed_values.get(b) == Some(
            doc.styles@[node.0 as int],
        ),
        Ok(None) => false,
        Err(e) => e == GenerationError::TooManyBoxes,
    }
    &&& doc.kinds@[node.0 as int] == NodeKind::Element ==> match box_plan(doc.styles@[node.0 as int].display) {
        BoxPlan::Skip => r == Ok::<Option<BoxNode>, GenerationError>(None) && *b1 == *b0,
        BoxPlan::Fail(u) => r == Err::<Option<BoxNode>, GenerationError>(GenerationError::NotImplemented(u)),
        BoxPlan::Make(flags, bfc) => match r {
            Ok(Some(b)) => {
                &&& b1.kind_of(b) == BoxNodeKind::Box(flags)
                &&& b1.computed_values.get(b) == Some(doc.styles@[node.0 as int])
                &&& bfc ==> b1.formatting_contexts.established_by(b) is Some
            },
            Ok(None) => false,
            Err(e) => e is NotImplemented || b1.len() >= usize::MAX - 2,
        },
    }
}

/// Every element of the subtree at `n`, down to `fuel` levels, has a
/// display that box generation implements (below `display: none`
/// nothing is looked at).
pub open spec fn supported(doc: &Document, n: NodeId, fuel: nat) -> bool
    decreases fuel,
{
    doc.kinds@[n.0 as int] == NodeKind::Text || match box_plan(doc.styles@[n.0 as int].display) {
        BoxPlan::Skip => true,
        BoxPlan::Fail(_) => false,
        BoxPlan::Make(_, _) => fuel == 0 || forall|k: int|
            0 <= k < doc.tree.children(n.0 as int).len() ==> supported(
                doc,
                #[trigger] doc.tree.children(n.0 as int)[k],
                (fuel - 1) as nat,
            ),
    }
}

/// Some element of the subtree at `n`, down to `fuel` levels and not below
/// `display: none`, has a display that fails with `u`.
pub open spec fn fails_with(doc: &Document, n: NodeId, u: Unsupported, fuel: nat) -> bool
    decreases fuel,
{
    doc.kinds@[n.0 as int] == NodeKind::Element && match box_plan(doc.styles@[n.0 as int].display) {
        BoxPlan::Skip => false,
        BoxPlan::Fail(v) => v == u,
        BoxPlan::Make(_, _) => fuel > 0 && exists|k: int|
            0 <= k < doc.tree.children(n.0 as int).len() && fails_with(
                doc,
                #[trigger] doc.tree.children(n.0 as int)[k],
                u,
                (fuel - 1) as nat,
            ),
    }
}

/// A supported subtree fails with nothing.
proof fn lemma_supported_not_fails(doc: &Document, n: NodeId, u: Unsupported, fuel: nat)
    requires
        supported(doc, n, fuel),
    ensures
        !fails_with(doc, n, u, fuel),
    decreases fuel,
{
    if doc.kinds@[n.0 as int] == NodeKind::Element && fuel > 0 {
        if let BoxPlan::Make(_, _) = box_plan(doc.styles@[n.0 as int].display) {
            let cs = doc.tree.children(n.0 as int);
            assert forall|k: int| 0 <= k < cs.len() implies !fails_with(doc, #[trigger] cs[k], u, (fuel - 1) as nat) by {
                lemma_supported_not_fails(doc, cs[k], u, (fuel - 1) as nat);
            }
        }
    }
}

/// Generates the boxes of the document subtree at `node`, unattached, and
/// returns the box of `node` itself (none for `display: none`). `fuel`
/// bounds the depth.
pub fn generate_box_subtree(doc: &Document, bt: &mut BoxTree, node: NodeId, fuel: usize) -> (r: Result<
    Option<BoxNode>,
    GenerationError,
>)
    requires
        doc.wf(),
        old(bt).wf(),
        doc.valid(node),
    ensures
        final(bt).wf(),
        final(bt).len() >= old(bt).len(),
        forall|n: NodeId| old(bt).valid(n) ==> #[trigger] final(bt).kind_of(n) == old(bt).kind_of(n),
        forall|n: NodeId| old(bt).valid(n) ==> #[trigger] final(bt).computed_values.get(n) == old(bt).computed_values.get(n),
        forall|n: NodeId|
            old(bt).valid(n) ==> #[trigger] final(bt).formatting_contexts.established_by(n)
                == old(bt).formatting_contexts.established_by(n),
        forall|d: NodeId| old(bt).valid(d) && #[trigger] old(bt).tree.detached(d) ==> final(bt).tree.detached(d),
        match r {
            Ok(Some(b)) => b.0 == old(bt).len() && final(bt).valid(b) && final(bt).tree.detached(b),
            _ => true,
        },
        generation_outcome(doc, node, old(bt), final(bt), r),
        match r {
            Err(GenerationError::NotImplemented(u)) => fails_with(doc, node, u, fuel as nat),
            _ => true,
        },
        supported(doc, node, fuel as nat) ==> r is Ok || final(bt).len() >= usize::MAX - 2,
    decreases fuel,
{
    if bt.node_count() >= usize::MAX - 2 {
        if doc.kind(node) == NodeKind::Element {
            match plan_box(doc.styles[node.0].display) {
                BoxPlan::Skip => {
                    return Ok(None);
                },
                BoxPlan::Fail(u) => {
                    return Err(GenerationError::NotImplemented(u));
                },
                BoxPlan::Make(_, _) => {},
            }
        }
        return Err(GenerationError::TooManyBoxes);
    }
    let props = doc.styles[node.0];
    if doc.kind(node) == NodeKind::Text {
        let text = match &doc.texts[node.0] {
            Some(t) => t.text.as_str(),
            None => "",
        };
        let b = bt.insert_text_sequence(text, props, None);
        return Ok(Some(b));
    }
    let (flags, bfc) = match plan_box(props.display) {
        BoxPlan::Skip => {
            return Ok(None);
        },
        BoxPlan::Fail(u) => {
            return Err(GenerationError::NotImplemented(u));
        },
        BoxPlan::Make(flags, bfc) => (flags, bfc),
    };
    let b = bt.insert_box(flags, ComputedProperties::Properties(props), None);
    if bfc {
        bt.formatting_contexts.establish_new_formatting_context(b, FormattingContext::new_block());
    }
    let ghost b1: BoxTree = *bt;
    let kids = doc.tree.iter_children(node);
    proof {
        doc.tree.lemma_children_valid_pub(node.0 as int);
    }
    let mut child_boxes: Vec<BoxNode> = Vec::new();
    let mut i: usize = 0;
    let mut failure: Option<GenerationError> = None;
        while fuel > 0 && i < kids.len() && failure.is_none()
            invariant
                doc.wf(),
                bt.wf(),
                b1.wf(),
                b1.valid(b),
                b1.tree.detached(b),
                b1.kind_of(b) == BoxNodeKind::Box(flags),
                b1.computed_values.get(b) == Some(props),
                bfc ==> b1.formatting_contexts.established_by(b) is Some,
                kids@ == doc.tree.children(node.0 as int),
                failure is Some ==> failure == Some(GenerationError::NotImplemented(failure.unwrap()->NotImplemented_0))
                    || (failure == Some(GenerationError::TooManyBoxes) && bt.len() >= usize::MAX - 2),
                match failure {
                    Some(GenerationError::NotImplemented(u)) => exists|k: int|
                        0 <= k < i && fails_with(doc, kids@[k], u, (fuel - 1) as nat),
                    _ => true,
                },
                supported(doc, node, fuel as nat) && fuel > 0 ==> forall|k: int|
                    0 <= k < kids@.len() ==> supported(doc, #[trigger] kids@[k], (fuel - 1) as nat),
                supported(doc, node, fuel as nat) && failure is Some ==> failure == Some(GenerationError::TooManyBoxes),
                bt.len() >= b1.len(),
                forall|k: int| 0 <= k < kids@.len() ==> doc.valid(#[trigger] kids@[k]),
                i <= kids.len(),
                extends(&b1, bt, Seq::empty()),
                bt.tree.detached(b),
                forall|k: int|
                    0 <= k < child_boxes@.len() ==> bt.valid(#[trigger] child_boxes@[k]) && child_boxes@[k] != b
                        && bt.tree.detached(child_boxes@[k]) && child_boxes@[k].0 >= b1.len(),
                forall|j: int, k: int|
                    0 <= j < k < child_boxes@.len() ==> (#[trigger] child_boxes@[j]).0 < (#[trigger] child_boxes@[k]).0,
                child_boxes@.len() > 0 ==> child_boxes@.last().0 < bt.len(),
            decreases kids.len() - i,
        {
            let ghost before: BoxTree = *bt;
            let sub = generate_box_subtree(doc, bt, kids[i], fuel - 1);
            match sub {
                Err(e) => {
                    proof {
                        if let GenerationError::NotImplemented(u) = e {
                            if supported(doc, node, fuel as nat) {
                                lemma_supported_not_fails(doc, kids@[i as int], u, (fuel - 1) as nat);
                            }
                        }
                    }
                    failure = Some(e);
                },
                Ok(None) => {},
                Ok(Some(c)) => {
                    let ghost cb0 = child_boxes@;
                    child_boxes.push(c);
                    proof {
                        assert forall|j: int, k: int|
                            0 <= j < k < child_boxes@.len() implies (#[trigger] child_boxes@[j]).0 < (#[trigger] child_boxes@[k]).0 by {
                            if k == cb0.len() && j < k {
                                assert(cb0[j].0 < before.len());
                            }
                        }
                    }
                },
            }
            proof {
                assert forall|d: NodeId| b1.valid(d) && #[trigger] b1.tree.detached(d) implies bt.tree.detached(d) by {
                    assert(before.tree.detached(d));
                }
                assert forall|n: NodeId| b1.valid(n) implies #[trigger] bt.kind_of(n) == b1.kind_of(n) by {
                    assert(before.kind_of(n) == b1.kind_of(n));
                }
                assert forall|n: NodeId| b1.valid(n) implies #[trigger] bt.computed_values.get(n) == b1.computed_values.get(n) by {
                    assert(before.computed_values.get(n) == b1.computed_values.get(n));
                }
                assert forall|n: NodeId| b1.valid(n) implies #[trigger] bt.formatting_contexts.established_by(n)
                    == b1.formatting_contexts.established_by(n) by {
                    assert(before.formatting_contexts.established_by(n) == b1.formatting_contexts.established_by(n));
                }
            }
            i = i + 1;
        }
    let ghost b2: BoxTree = *bt;
    proof {
        assert(!child_boxes@.contains(b)) by {
            if child_boxes@.contains(b) {
                let k = choose|k: int| 0 <= k < child_boxes@.len() && child_boxes@[k] == b;
            }
        }
        assert forall|d: NodeId| old(bt).valid(d) && #[trigger] old(bt).tree.detached(d) implies b2.tree.detached(d) by {
            assert(b1.tree.detached(d));
        }
        assert forall|n: NodeId| old(bt).valid(n) implies #[trigger] b2.kind_of(n) == old(bt).kind_of(n) by {
            assert(b1.kind_of(n) == old(bt).kind_of(n));
        }
        assert forall|n: NodeId| old(bt).valid(n) implies #[trigger] b2.computed_values.get(n) == old(bt).computed_values.get(n) by {
            assert(b1.computed_values.get(n) == old(bt).computed_values.get(n));
        }
        assert forall|n: NodeId| old(bt).valid(n) implies #[trigger] b2.formatting_contexts.established_by(n)
            == old(bt).formatting_contexts.established_by(n) by {
            assert(b1.formatting_contexts.established_by(n) == old(bt).formatting_contexts.established_by(n));
        }
    }
    if let Some(e) = failure {
        return Err(e);
    }
    let a = attach_generated_children(bt, b, &child_boxes);
    let ghost b3: BoxTree = *bt;
    if a.is_err() {
        proof {
            assert forall|d: NodeId| old(bt).valid(d) && #[trigger] old(bt).tree.detached(d) implies bt.tree.detached(d) by {
                assert(b1.tree.detached(d));
                assert(b2.tree.detached(d));
                if child_boxes@.contains(d) {
                    let k = choose|k: int| 0 <= k < child_boxes@.len() && child_boxes@[k] == d;
                }
            }
        }
        return Err(GenerationError::TooManyBoxes);
    }
    let e = check_if_a_new_inline_formatting_context_must_be_established(bt, b);
    proof {
        assert(b3.tree.detached(b)) by {
            assert(!child_boxes@.contains(b));
        }
        assert forall|d: NodeId| old(bt).valid(d) && #[trigger] old(bt).tree.detached(d) implies bt.tree.detached(d) by {
            assert(b1.tree.detached(d));
            assert(b2.tree.detached(d));
            if child_boxes@.contains(d) {
                let k = choose|k: int| 0 <= k < child_boxes@.len() && child_boxes@[k] == d;
            }
            assert(b3.tree.detached(d));
        }
        assert forall|n: NodeId| old(bt).valid(n) implies #[trigger] bt.kind_of(n) == old(bt).kind_of(n) by {
            assert(b1.kind_of(n) == old(bt).kind_of(n));
            assert(b2.kind_of(n) == b1.kind_of(n));
            assert(b3.kind_of(n) == b2.kind_of(n));
        }
        assert forall|n: NodeId| old(bt).valid(n) implies #[trigger] bt.computed_values.get(n) == old(bt).computed_values.get(n) by {
            assert(b1.computed_values.get(n) == old(bt).computed_values.get(n));
            assert(b2.computed_values.get(n) == b1.computed_values.get(n));
            assert(b3.computed_values.get(n) == b2.computed_values.get(n));
        }
        assert forall|n: NodeId| old(bt).valid(n) implies #[trigger] bt.formatting_contexts.established_by(n)
            == old(bt).formatting_contexts.established_by(n) by {
            assert(b1.formatting_contexts.established_by(n) == old(bt).formatting_contexts.established_by(n));
            assert(b2.formatting_contexts.established_by(n) == b1.formatting_contexts.established_by(n));
            assert(b3.formatting_contexts.established_by(n) == b2.formatting_contexts.established_by(n));
        }
        assert(b2.kind_of(b) == b1.kind_of(b));
        assert(b3.kind_of(b) == b2.kind_of(b));
        assert(b2.computed_values.get(b) == b1.computed_values.get(b));
        assert(b3.computed_values.get(b) == b2.computed_values.get(b));
        assert(b2.formatting_contexts.established_by(b) == b1.formatting_contexts.established_by(b));
        assert(b3.formatting_contexts.established_by(b) == b2.formatting_contexts.established_by(b));
    }
    if e.is_err() {
        return Err(GenerationError::TooManyBoxes);
    }
    Ok(Some(b))
}

/// Generates the boxes of the document subtree at `node` and appends the
/// box of `node`, if any, to the children of `maybe_parent`, if given.
pub fn generate_box_subtree_with_parent(
    doc: &Document,
    bt: &mut BoxTree,
    node: NodeId,
    maybe_parent: Option<BoxNode>,
) -> (r: Result<Option<BoxNode>, GenerationError>)
    requires
        doc.wf(),
        old(bt).wf(),
        doc.valid(node),
        match maybe_parent {
            Some(p) => old(bt).valid(p),
            None => true,
        },
    ensures
        final(bt).wf(),
        final(bt).len() >= old(bt).len(),
        generation_outcome(doc, node, old(bt), final(bt), r),
        match r {
            Err(GenerationError::NotImplemented(u)) => fails_with(doc, node, u, doc.len() as nat),
            _ => true,
        },
        supported(doc, node, doc.len() as nat) ==> r is Ok || final(bt).len() >= usize::MAX - 2,
        match (r, maybe_parent) {
            (Ok(Some(b)), Some(p)) => final(bt).tree.par(b.0 as int) == Some(p) && final(bt).tree.children(
                p.0 as int,
            ).last() == b,
            (Ok(Some(b)), None) => final(bt).tree.detached(b),
            _ => true,
        },
{
    let n = doc.tree.node_count();
    let r = generate_box_subtree(doc, bt, node, n);
    match (r, maybe_parent) {
        (Ok(Some(b)), Some(p)) => {
            let ghost b1: BoxTree = *bt;
            bt.tree.attach_child(p, b);
            assert(bt.kind_of(b) == b1.kind_of(b));
            r
        },
        _ => r,
    }
}

/// Generates the box tree of `doc` from its root into the empty tree `bt`.
/// The root box comes first (node 0) and establishes a block formatting
/// context unless it already establishes one.
pub fn generate_box_tree(doc: &Document, bt: &mut BoxTree) -> (r: Result<(), GenerationError>)
    requires
        doc.wf(),
        old(bt).wf(),
        old(bt).len() == 0,
    ensures
        final(bt).wf(),
        tree_outcome(doc, final(bt), r),
{
    match doc.tree.root() {
        None => Ok(()),
        Some(root) => {
            let n = doc.tree.node_count();
            let top = generate_box_subtree(doc, bt, root, n);
            match top {
                Err(e) => Err(e),
                Ok(None) => Ok(()),
                Ok(Some(b)) => {
                    if bt.formatting_contexts.establishes(b).is_none() {
                        bt.formatting_contexts.establish_new_formatting_context(b, FormattingContext::new_block());
                    }
                    Ok(())
                },
            }
        },
    }
}

/// What generating the box tree of `doc` gives in `bt`: nothing for no
/// root or a root with `display: none`; the root element's failure for an
/// unimplemented display; otherwise a root box (node 0) of the planned kind
/// and properties that establishes a context, unless a descendant fails or
/// the tree is full.
pub open spec fn tree_outcome(doc: &Document, bt: &BoxTree, r: Result<(), GenerationError>) -> bool {
    &&& r == Err::<(), GenerationError>(GenerationError::TooManyBoxes) ==> bt.len() >= usize::MAX - 2
    &&& match (doc.tree.root, r) {
        (Some(root), Err(GenerationError::NotImplemented(u))) => fails_with(doc, root, u, doc.len() as nat),
        (None, Err(_)) => false,
        _ => true,
    }
    &&& match doc.tree.root {
        Some(root) => supported(doc, root, doc.len() as nat) ==> r is Ok || bt.len() >= usize::MAX - 2,
        None => true,
    }
    &&& match doc.tree.root {
        None => r is Ok && bt.len() == 0,
        Some(root) => {
            &&& doc.kinds@[root.0 as int] == NodeKind::Text ==> (r is Ok ==> bt.len() > 0 && bt.kind_of(NodeId(0))
                == BoxNodeKind::TextSequence)
            &&& doc.kinds@[root.0 as int] == NodeKind::Element ==> match box_plan(doc.styles@[root.0 as int].display) {
                BoxPlan::Skip => r is Ok && bt.len() == 0,
                BoxPlan::Fail(u) => r == Err::<(), GenerationError>(GenerationError::NotImplemented(u)),
                BoxPlan::Make(flags, _) => match r {
                    Ok(_) => {
                        &&& bt.len() > 0
                        &&& bt.kind_of(NodeId(0)) == BoxNodeKind::Box(flags)
                        &&& bt.computed_values.get(NodeId(0)) == Some(doc.styles@[root.0 as int])
                        &&& bt.formatting_contexts.established_by(NodeId(0)) is Some
                    },
                    Err(e) => e is NotImplemented || bt.len() >= usize::MAX - 2,
                },
            }
        },
    }
}

/// `d1` is `d0` with the display of `n` blockified and every other style kept.
pub open spec fn root_blockified(d0: &Document, d1: &Document, n: NodeId) -> bool {
    let d = d0.styles@[n.0 as int].display;
    let e = d1.styles@[n.0 as int].display;
    &&& d1.styles@.len() == d0.styles@.len()
    &&& forall|x: int| 0 <= x < d0.len() && x != n.0 ==> #[trigger] d1.styles@[x] == d0.styles@[x]
    &&& family_bits(d.0) == 2 || family_bits(d.0) == 3 ==> e == d
    &&& family_bits(d.0) == 0 || family_bits(d.0) == 1 ==> (spec_outer(e.0), spec_inner(e.0)) == spec_blockify(d)
}

impl Document {
    /// Blockifies the display of `n`.
    pub fn blockify_node(&mut self, n: NodeId)
        requires
            old(self).wf(),
            old(self).valid(n),
        ensures
            final(self).wf(),
            final(self).tree == old(self).tree,
            final(self).kinds@ == old(self).kinds@,
            forall|x: int| 0 <= x < old(self).len() && x != n.0 ==> #[trigger] final(self).styles@[x] == old(self).styles@[x],
            ({
                let d = old(self).styles@[n.0 as int].display;
                let e = final(self).styles@[n.0 as int].display;
                &&& family_bits(d.0) == 2 || family_bits(d.0) == 3 ==> e == d
                &&& family_bits(d.0) == 0 || family_bits(d.0) == 1 ==> (spec_outer(e.0), spec_inner(e.0))
                    == spec_blockify(d)
            }),
    {
        let mut p = self.styles[n.0];
        p.display = blockify(p.display);
        self.styles[n.0] = p;
    }

    /// Inlinifies the display of `n`; an inline box also inlinifies its
    /// children, recursively (`fuel` bounds the depth).
    pub fn inlinify_node(&mut self, n: NodeId, fuel: usize)
        requires
            old(self).wf(),
            old(self).valid(n),
        ensures
            final(self).wf(),
            final(self).tree == old(self).tree,
            final(self).kinds@ == old(self).kinds@,
            ({
                let d = old(self).styles@[n.0 as int].display;
                let e = final(self).styles@[n.0 as int].display;
                &&& family_bits(d.0) != 0 ==> e == d
                &&& family_bits(d.0) == 0 ==> spec_outer(e.0) == Some(DisplayOutside::Inline) && spec_inner(e.0) == (if spec_outer(
                    d.0,
                ) == Some(DisplayOutside::Block) && spec_inner(d.0) == Some(DisplayInside::Flow) {
                    Some(DisplayInside::FlowRoot)
                } else if spec_inner(d.0) is None {
                    Some(DisplayInside::Flow)
                } else {
                    spec_inner(d.0)
                })
            }),
            forall|x: int|
                0 <= x < old(self).len() && x != n.0 && !old(self).tree.children(n.0 as int).contains(NodeId(x as usize))
                    && !(spec_outer(old(self).styles@[n.0 as int].display.0) == Some(DisplayOutside::Inline) && spec_inner(
                    old(self).styles@[n.0 as int].display.0,
                ) == Some(DisplayInside::Flow)) ==> #[trigger] final(self).styles@[x] == old(self).styles@[x],
        decreases fuel,
    {
        let d = self.styles[n.0].display;
        let mut p = self.styles[n.0];
        if d.is_inline_box() && fuel > 0 {
            let kids = self.tree.iter_children(n);
            proof {
                self.tree.lemma_children_valid_pub(n.0 as int);
            }
            let mut i: usize = 0;
            while i < kids.len()
                invariant
                    self.wf(),
                    self.tree == old(self).tree,
                    self.kinds@ == old(self).kinds@,
                    self.len() == old(self).len(),
                    forall|k: int| 0 <= k < kids@.len() ==> old(self).valid(#[trigger] kids@[k]),
                    i <= kids.len(),
                    fuel > 0,
                decreases kids.len() - i,
            {
                self.inlinify_node(kids[i], fuel - 1);
                i = i + 1;
            }
        }
        p.display = inlinify(d);
        self.styles[n.0] = p;
    }

    /// The style pass: blockifies the root element.
    pub fn style(&mut self)
        requires
            old(self).wf(),
        ensures
            final(self).wf(),
            final(self).tree == old(self).tree,
            final(self).kinds@ == old(self).kinds@,
            old(self).tree.root is None ==> final(self).styles@ == old(self).styles@,
            old(self).tree.root is Some ==> root_blockified(old(self), final(self), old(self).tree.root.unwrap()),
    {
        match self.tree.root() {
            Some(root) => self.blockify_node(root),
            None => {},
        }
    }
}

} // verus!
