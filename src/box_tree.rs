//! The box tree: boxes generated from the document, with their flags,
//! computed properties (possibly shared), texts and formatting contexts.
use vstd::prelude::*;
use crate::components::Components;
use crate::formatting_context::{FormattingContextId, FormattingContexts};
use crate::metrics::BoxMetrics;
use crate::style::Properties;
use crate::text::TextSequence;
use crate::tree::{NodeId, Tree};

verus! {

/// A node of the box tree.
pub type BoxNode = NodeId;

pub const LEVEL_MASK: u16 = 0b11;
pub const BLOCK_LEVEL: u16 = 0b1;
pub const INLINE_LEVEL: u16 = 0b10;
pub const RUN_IN_LEVEL: u16 = 0b11;
pub const CONTAINER: u16 = 0b100;
pub const ATOMIC: u16 = 0b1000;
pub const ROOT: u16 = 0b10000;

/// Flags of a box: a two-bit level (block, inline, run-in), a container
/// bit, an atomic bit and a root-inline-box bit.
#[derive(Clone, Copy, PartialEq, Eq, Structural, Debug, Default)]
pub struct BoxFlags(pub u16);

impl BoxFlags {
    pub open spec fn level(&self) -> u16 {
        self.0 & LEVEL_MASK
    }

    pub open spec fn container(&self) -> bool {
        self.0 & CONTAINER == CONTAINER
    }

    pub open spec fn atomic(&self) -> bool {
        self.0 & ATOMIC == ATOMIC
    }

    pub open spec fn spec_inline_level(&self) -> bool {
        self.level() == INLINE_LEVEL
    }

    pub open spec fn spec_block_level(&self) -> bool {
        self.level() == BLOCK_LEVEL
    }

    pub fn is_inline_level(&self) -> (r: bool)
        ensures
            r == self.spec_inline_level(),
    {
        self.0 & LEVEL_MASK == INLINE_LEVEL
    }

    pub fn is_block_level(&self) -> (r: bool)
        ensures
            r == self.spec_block_level(),
    {
        self.0 & LEVEL_MASK == BLOCK_LEVEL
    }

    /// A block-level container.
    pub fn is_block_container(&self) -> (r: bool)
        ensures
            r == (self.container() && self.spec_block_level()),
    {
        self.is_container() && self.is_block_level()
    }

    /// An inline-level atomic box.
    pub fn is_atomic_inline_level(&self) -> (r: bool)
        ensures
            r == (self.spec_inline_level() && self.atomic()),
    {
        self.is_inline_level() && self.is_atomic()
    }

    pub fn is_container(&self) -> (r: bool)
        ensures
            r == self.container(),
    {
        self.0 & CONTAINER == CONTAINER
    }

    pub fn is_atomic(&self) -> (r: bool)
        ensures
            r == self.atomic(),
    {
        self.0 & ATOMIC == ATOMIC
    }

    pub fn run_in_level() -> (r: BoxFlags)
        ensures
            r.level() == RUN_IN_LEVEL,
            !r.container(),
            !r.atomic(),
    {
        let r = BoxFlags(RUN_IN_LEVEL);
        assert(3u16 & 3u16 == 3u16 && 3u16 & 4u16 != 4u16 && 3u16 & 8u16 != 8u16) by (bit_vector);
        r
    }

    pub fn block_level() -> (r: BoxFlags)
        ensures
            r == BoxFlags(BLOCK_LEVEL),
            r.spec_block_level(),
            !r.container(),
            !r.atomic(),
    {
        let r = BoxFlags(BLOCK_LEVEL);
        assert(1u16 & 3u16 == 1u16 && 1u16 & 4u16 != 4u16 && 1u16 & 8u16 != 8u16) by (bit_vector);
        r
    }

    pub fn block_container() -> (r: BoxFlags)
        ensures
            r.spec_block_level(),
            r.container(),
            !r.atomic(),
    {
        let r = BoxFlags(BLOCK_LEVEL | CONTAINER);
        assert((1u16 | 4u16) & 3u16 == 1u16 && (1u16 | 4u16) & 4u16 == 4u16 && (1u16 | 4u16) & 8u16 != 8u16)
            by (bit_vector);
        r
    }

    pub fn inline_level() -> (r: BoxFlags)
        ensures
            r.spec_inline_level(),
            !r.container(),
            !r.atomic(),
    {
        let r = BoxFlags(INLINE_LEVEL);
        assert(2u16 & 3u16 == 2u16 && 2u16 & 4u16 != 4u16 && 2u16 & 8u16 != 8u16) by (bit_vector);
        r
    }

    /// The flags of the root inline box of an inline formatting context.
    pub fn root_inline_box() -> (r: BoxFlags)
        ensures
            r == BoxFlags(INLINE_LEVEL | ROOT),
            r.spec_inline_level(),
            !r.container(),
            !r.atomic(),
            r.0 & ROOT == ROOT,
    {
        let r = BoxFlags(INLINE_LEVEL | ROOT);
        assert((2u16 | 16u16) & 3u16 == 2u16 && (2u16 | 16u16) & 4u16 != 4u16 && (2u16 | 16u16) & 8u16 != 8u16
            && (2u16 | 16u16) & 16u16 == 16u16) by (bit_vector);
        r
    }
}

#[derive(Clone, Copy, PartialEq, Eq, Structural, Debug)]
pub enum BoxNodeKind {
    Box(BoxFlags),
    TextSequence,
}

impl BoxNodeKind {
    /// Text runs are inline-level.
    pub open spec fn spec_inline_level(&self) -> bool {
        match self {
            BoxNodeKind::Box(f) => f.spec_inline_level(),
            BoxNodeKind::TextSequence => true,
        }
    }

    pub open spec fn spec_block_container(&self) -> bool {
        match self {
            BoxNodeKind::Box(f) => f.container() && f.spec_block_level(),
            BoxNodeKind::TextSequence => false,
        }
    }

    pub fn is_block_container(&self) -> (r: bool)
        ensures
            r == self.spec_block_container(),
    {
        match self {
            BoxNodeKind::Box(flags) => flags.is_block_container(),
            BoxNodeKind::TextSequence => false,
        }
    }

    pub fn is_block_level(&self) -> (r: bool)
        ensures
            r == match self {
                BoxNodeKind::Box(f) => f.spec_block_level(),
                BoxNodeKind::TextSequence => false,
            },
    {
        match self {
            BoxNodeKind::Box(flags) => flags.is_block_level(),
            BoxNodeKind::TextSequence => false,
        }
    }

    pub fn is_inline_level(&self) -> (r: bool)
        ensures
            r == self.spec_inline_level(),
    {
        match self {
            BoxNodeKind::Box(flags) => flags.is_inline_level(),
            BoxNodeKind::TextSequence => true,
        }
    }

    pub fn is_atomic_inline(&self) -> (r: bool)
        ensures
            r == match self {
                BoxNodeKind::Box(f) => f.spec_inline_level() && f.atomic(),
                BoxNodeKind::TextSequence => false,
            },
    {
        match self {
            BoxNodeKind::Box(flags) => flags.is_atomic_inline_level(),
            BoxNodeKind::TextSequence => false,
        }
    }
}

/// Computed properties of a new box: a value of its own, or those of
/// another box, shared (writes through either are seen by both).
#[derive(Clone, Copy, PartialEq, Eq, Structural, Debug)]
pub enum ComputedProperties {
    Properties(Properties),
    SameAs(BoxNode),
}

/// The box whose properties `p` shares, if any.
pub open spec fn from_of(p: ComputedProperties) -> NodeId {
    match p {
        ComputedProperties::SameAs(n) => n,
        ComputedProperties::Properties(_) => NodeId(0),
    }
}

/// Boxes with their links, kinds, box metrics, computed properties,
/// texts, originating document nodes and formatting contexts.
pub struct BoxTree {
    pub tree: Tree,
    pub kinds: Vec<BoxNodeKind>,
    pub dom: Vec<Option<NodeId>>,
    pub boxes: Vec<BoxMetrics>,
    pub computed_values: Components<Properties>,
    pub text_sequences: Vec<Option<TextSequence>>,
    pub formatting_contexts: FormattingContexts,
}

impl BoxTree {
    pub open spec fn len(&self) -> int {
        self.tree.len()
    }

    pub open spec fn valid(&self, n: BoxNode) -> bool {
        n.0 < self.len()
    }

    pub open spec fn kind_of(&self, n: BoxNode) -> BoxNodeKind {
        self.kinds@[n.0 as int]
    }

    pub open spec fn wf(&self) -> bool {
        &&& self.tree.wf()
        &&& self.kinds@.len() == self.len()
        &&& self.dom@.len() == self.len()
        &&& self.boxes@.len() == self.len()
        &&& self.text_sequences@.len() == self.len()
        &&& self.computed_values.wf()
        &&& self.computed_values.slots@.len() <= self.len()
        &&& forall|n: NodeId| self.valid(n) ==> (#[trigger] self.computed_values.get(n)) is Some
        &&& forall|n: NodeId| !self.valid(n) ==> (#[trigger] self.computed_values.slot(n)) is None
        &&& self.formatting_contexts.wf()
    }

    /// Whether every child of `n` is inline-level.
    pub open spec fn only_inline_children(&self, n: BoxNode) -> bool {
        forall|k: int|
            0 <= k < self.tree.children(n.0 as int).len() ==> (#[trigger] self.kind_of(
                self.tree.children(n.0 as int)[k],
            )).spec_inline_level()
    }

    /// Whether some child of `n` is inline-level.
    pub open spec fn some_inline_child(&self, n: BoxNode) -> bool {
        exists|k: int|
            0 <= k < self.tree.children(n.0 as int).len() && (#[trigger] self.kind_of(
                self.tree.children(n.0 as int)[k],
            )).spec_inline_level()
    }

    /// The context established by the nearest strict ancestor of `n` that
    /// establishes one, following at most `fuel` parent links.
    pub open spec fn ancestor_context(&self, n: BoxNode, fuel: nat) -> Option<FormattingContextId>
        decreases fuel,
    {
        if fuel == 0 {
            None
        } else {
            match self.tree.par(n.0 as int) {
                None => None,
                Some(p) => if self.formatting_contexts.established_by(p) is Some {
                    self.formatting_contexts.established_by(p)
                } else {
                    self.ancestor_context(p, (fuel - 1) as nat)
                },
            }
        }
    }

    pub fn new() -> (r: BoxTree)
        ensures
            r.wf(),
            r.len() == 0,
    {
        BoxTree {
            tree: Tree::new(),
            kinds: Vec::new(),
            dom: Vec::new(),
            boxes: Vec::new(),
            computed_values: Components::new(),
            text_sequences: Vec::new(),
            formatting_contexts: FormattingContexts::new(),
        }
    }

    pub fn node_count(&self) -> (r: usize)
        ensures
            r == self.len(),
    {
        self.tree.node_count()
    }

    pub fn kind(&self, n: BoxNode) -> (r: BoxNodeKind)
        requires
            self.wf(),
            self.valid(n),
        ensures
            r == self.kind_of(n),
    {
        self.kinds[n.0]
    }

    /// The computed properties of `n`.
    pub fn properties(&self, n: BoxNode) -> (r: Properties)
        requires
            self.wf(),
            self.valid(n),
        ensures
            Some(r) == self.computed_values.get(n),
    {
        assert(self.computed_values.get(n) is Some);
        let p = self.computed_values.borrow(n);
        *p.unwrap()
    }

    /// Replaces the computed properties of `n`, and so of every box that shares them.
    pub fn set_properties(&mut self, n: BoxNode, props: Properties)
        requires
            old(self).wf(),
            old(self).valid(n),
        ensures
            final(self).wf(),
            final(self).tree == old(self).tree,
            final(self).kinds@ == old(self).kinds@,
            final(self).computed_values.get(n) == Some(props),
            forall|x: NodeId|
                #![trigger final(self).computed_values.get(x)]
                x != n && old(self).computed_values.slot(x) == old(self).computed_values.slot(n)
                    ==> final(self).computed_values.get(x) == Some(props),
    {
        assert(self.computed_values.get(n) is Some);
        self.computed_values.bind(n, props);
        assert forall|x: NodeId| self.valid(x) implies (#[trigger] self.computed_values.get(x)) is Some by {
            assert(old(self).computed_values.get(x) is Some);
        }
        assert forall|x: NodeId| !self.valid(x) implies (#[trigger] self.computed_values.slot(x)) is None by {
            assert(old(self).computed_values.slot(x) is None);
        }
    }

    /// Adds a node of `kind` with the given properties.
    fn new_node(&mut self, kind: BoxNodeKind, props: ComputedProperties, text: Option<TextSequence>) -> (r: BoxNode)
        requires
            old(self).wf(),
            old(self).len() < usize::MAX - 1,
            match props {
                ComputedProperties::SameAs(from) => old(self).valid(from),
                _ => true,
            },
        ensures
            final(self).wf(),
            r.0 == old(self).len(),
            final(self).len() == old(self).len() + 1,
            final(self).kinds@ == old(self).kinds@.push(kind),
            final(self).text_sequences@ == old(self).text_sequences@.push(text),
            forall|x: int| 0 <= x < old(self).len() ==> final(self).tree.edges@[x] == old(self).tree.edges@[x],
            forall|x: int| 0 <= x < old(self).len() ==> final(self).tree.succ@[x] == old(self).tree.succ@[x],
            final(self).tree.root == (if old(self).tree.root is None { Some(r) } else { old(self).tree.root }),
            final(self).tree.sib(r.0 as int) is None,
            final(self).tree.kid(r.0 as int) is None,
            final(self).tree.par(r.0 as int) is None,
            final(self).tree.unlinked(r),
            final(self).formatting_contexts == old(self).formatting_contexts,
            match props {
                ComputedProperties::Properties(p) => final(self).computed_values.get(r) == Some(p),
                ComputedProperties::SameAs(from) => final(self).computed_values.slot(r)
                    == old(self).computed_values.slot(from),
            },
            forall|x: NodeId| x != r ==> #[trigger] final(self).computed_values.get(x) == old(self).computed_values.get(x),
            forall|x: NodeId| x != r ==> #[trigger] final(self).computed_values.slot(x) == old(self).computed_values.slot(x),
    {
        let ghost c0 = self.computed_values;
        let node = self.tree.bind_edges();
        self.kinds.push(kind);
        self.dom.push(None);
        self.boxes.push(BoxMetrics::zero());
        self.text_sequences.push(text);
        assert(c0.slot(node) is None);
        assert(c0.get(from_of(props)) is Some || props is Properties);
        match props {
            ComputedProperties::Properties(p) => {
                self.computed_values.bind(node, p);
            },
            ComputedProperties::SameAs(from) => {
                self.computed_values.share_from(node, from);
            },
        }
        proof {
            assert forall|x: NodeId| x != node implies #[trigger] self.computed_values.get(x) == c0.get(x) by {
                if c0.slot(node) is Some && c0.slot(x) == c0.slot(node) {
                }
            }
            assert forall|x: NodeId| self.valid(x) implies (#[trigger] self.computed_values.get(x)) is Some by {
                if x != node {
                    assert(c0.get(x) is Some);
                }
            }
            assert forall|x: NodeId| !self.valid(x) implies (#[trigger] self.computed_values.slot(x)) is None by {
                assert(c0.slot(x) is None);
            }
        }
        node
    }

    /// Attaches `n` under `maybe_parent`, if given.
    fn attach_new(&mut self, n: BoxNode, maybe_parent: Option<BoxNode>)
        requires
            old(self).wf(),
            old(self).valid(n),
            old(self).tree.sib(n.0 as int) is None,
            old(self).tree.unlinked(n),
            match maybe_parent {
                Some(p) => old(self).valid(p) && p != n,
                None => true,
            },
        ensures
            final(self).wf(),
            final(self).len() == old(self).len(),
            final(self).kinds@ == old(self).kinds@,
            final(self).computed_values == old(self).computed_values,
            final(self).formatting_contexts == old(self).formatting_contexts,
            final(self).text_sequences@ == old(self).text_sequences@,
            final(self).tree.kid(n.0 as int) == old(self).tree.kid(n.0 as int),
            forall|d: NodeId| old(self).valid(d) && d != n && #[trigger] old(self).tree.detached(d) ==> final(self).tree.detached(d),
            match maybe_parent {
                Some(p) => {
                    &&& final(self).tree.children(p.0 as int) == old(self).tree.children(p.0 as int).push(n)
                    &&& final(self).tree.par(n.0 as int) == Some(p)
                },
                None => final(self).tree == old(self).tree,
            },
    {
        match maybe_parent {
            Some(p) => self.tree.attach_child(p, n),
            None => {},
        }
    }

    /// Adds a text box with its own properties, attached under `maybe_parent` if given.
    pub fn insert_text_sequence(&mut self, text: &str, props: Properties, maybe_parent: Option<BoxNode>) -> (r:
        BoxNode)
        requires
            old(self).wf(),
            old(self).len() < usize::MAX - 1,
            match maybe_parent {
                Some(p) => old(self).valid(p),
                None => true,
            },
        ensures
            final(self).wf(),
            r.0 == old(self).len(),
            final(self).len() == old(self).len() + 1,
            final(self).kinds@ == old(self).kinds@.push(BoxNodeKind::TextSequence),
            final(self).text_sequences@[r.0 as int].unwrap().text@ == text@,
            final(self).computed_values.get(r) == Some(props),
            forall|x: NodeId| x != r ==> #[trigger] final(self).computed_values.get(x) == old(self).computed_values.get(x),
            forall|d: NodeId| old(self).valid(d) && #[trigger] old(self).tree.detached(d) ==> final(self).tree.detached(d),
            final(self).formatting_contexts == old(self).formatting_contexts,
            maybe_parent is None ==> final(self).tree.detached(r),
            match maybe_parent {
                Some(p) => {
                    &&& final(self).tree.children(p.0 as int) == old(self).tree.children(p.0 as int).push(r)
                    &&& final(self).tree.par(r.0 as int) == Some(p)
                },
                None => final(self).tree.par(r.0 as int) is None,
            },
    {
        let node = self.new_node(
            BoxNodeKind::TextSequence,
            ComputedProperties::Properties(props),
            Some(TextSequence::from_str(text)),
        );
        let ghost mid: BoxTree = *self;
        proof {
            assert forall|d: NodeId| old(self).valid(d) && #[trigger] old(self).tree.detached(d) implies mid.tree.detached(d) by {
                assert forall|x: int| 0 <= x < mid.len() implies mid.tree.sib(x) != Some(d) && mid.tree.kid(x) != Some(d) by {
                    if x < old(self).len() {
                        assert(mid.tree.edges@[x] == old(self).tree.edges@[x]);
                    }
                }
            }
            if let Some(p) = maybe_parent {
                assert(self.tree.children(p.0 as int) == old(self).tree.children(p.0 as int)) by {
                    if let Some(h) = old(self).tree.kid(p.0 as int) {
                        assert(self.tree.succ@[h.0 as int] == old(self).tree.succ@[h.0 as int]);
                    }
                }
            }
        }
        self.attach_new(node, maybe_parent);
        node
    }

    /// Adds a box with the given flags and properties (its own, or shared
    /// with another box), attached under `maybe_parent` if given.
    pub fn insert_box(&mut self, flags: BoxFlags, props: ComputedProperties, maybe_parent: Option<BoxNode>) -> (r:
        BoxNode)
        requires
            old(self).wf(),
            old(self).len() < usize::MAX - 1,
            match props {
                ComputedProperties::SameAs(from) => old(self).valid(from),
                _ => true,
            },
            match maybe_parent {
                Some(p) => old(self).valid(p),
                None => true,
            },
        ensures
            final(self).wf(),
            r.0 == old(self).len(),
            final(self).len() == old(self).len() + 1,
            final(self).kinds@ == old(self).kinds@.push(BoxNodeKind::Box(flags)),
            final(self).formatting_contexts == old(self).formatting_contexts,
            final(self).tree.kid(r.0 as int) is None,
            match props {
                ComputedProperties::Properties(p) => final(self).computed_values.get(r) == Some(p),
                ComputedProperties::SameAs(from) => final(self).computed_values.slot(r)
                    == old(self).computed_values.slot(from),
            },
            forall|x: NodeId| x != r ==> #[trigger] final(self).computed_values.get(x) == old(self).computed_values.get(x),
            forall|x: NodeId| x != r ==> #[trigger] final(self).computed_values.slot(x) == old(self).computed_values.slot(x),
            forall|d: NodeId| old(self).valid(d) && #[trigger] old(self).tree.detached(d) ==> final(self).tree.detached(d),
            final(self).formatting_contexts == old(self).formatting_contexts,
            match maybe_parent {
                Some(p) => {
                    &&& final(self).tree.children(p.0 as int) == old(self).tree.children(p.0 as int).push(r)
                    &&& final(self).tree.par(r.0 as int) == Some(p)
                },
                None => {
                    &&& final(self).tree.par(r.0 as int) is None
                    &&& final(self).tree.sib(r.0 as int) is None
                    &&& final(self).tree.unlinked(r)
                    &&& forall|x: int|
                        0 <= x < old(self).len() ==> #[trigger] final(self).tree.edges@[x] == old(self).tree.edges@[x]
                    &&& forall|x: int|
                        0 <= x < old(self).len() ==> #[trigger] final(self).tree.succ@[x] == old(self).tree.succ@[x]
                },
            },
    {
        let node = self.new_node(BoxNodeKind::Box(flags), props, None);
        let ghost mid: BoxTree = *self;
        proof {
            assert forall|d: NodeId| old(self).valid(d) && #[trigger] old(self).tree.detached(d) implies mid.tree.detached(d) by {
                assert forall|x: int| 0 <= x < mid.len() implies mid.tree.sib(x) != Some(d) && mid.tree.kid(x) != Some(d) by {
                    if x < old(self).len() {
                        assert(mid.tree.edges@[x] == old(self).tree.edges@[x]);
                    }
                }
            }
            if let Some(p) = maybe_parent {
                assert(self.tree.children(p.0 as int) == old(self).tree.children(p.0 as int)) by {
                    if let Some(h) = old(self).tree.kid(p.0 as int) {
                        assert(self.tree.succ@[h.0 as int] == old(self).tree.succ@[h.0 as int]);
                    }
                }
            }
        }
        self.attach_new(node, maybe_parent);
        node
    }

    /// Whether every child of `n` is inline-level.
    pub fn has_only_inline_level_boxes(&self, n: BoxNode) -> (r: bool)
        requires
            self.wf(),
            self.valid(n),
        ensures
            r == self.only_inline_children(n),
    {
        let v = self.tree.iter_children(n);
        proof {
            self.tree.lemma_children_valid_pub(n.0 as int);
        }
        let mut i: usize = 0;
        while i < v.len()
            invariant
                self.wf(),
                v@ == self.tree.children(n.0 as int),
                forall|k: int| 0 <= k < v@.len() ==> self.valid(#[trigger] v@[k]),
                i <= v.len(),
                forall|k: int| 0 <= k < i ==> (#[trigger] self.kind_of(v@[k])).spec_inline_level(),
            decreases v.len() - i,
        {
            if !self.kinds[v[i].0].is_inline_level() {
                assert(!self.kind_of(v@[i as int]).spec_inline_level());
                return false;
            }
            i = i + 1;
        }
        true
    }

    /// Whether some child of `n` is inline-level.
    pub fn has_inline_level_boxes(&self, n: BoxNode) -> (r: bool)
        requires
            self.wf(),
            self.valid(n),
        ensures
            r == self.some_inline_child(n),
    {
        let v = self.tree.iter_children(n);
        proof {
            self.tree.lemma_children_valid_pub(n.0 as int);
        }
        let mut i: usize = 0;
        while i < v.len()
            invariant
                self.wf(),
                v@ == self.tree.children(n.0 as int),
                forall|k: int| 0 <= k < v@.len() ==> self.valid(#[trigger] v@[k]),
                i <= v.len(),
                forall|k: int| 0 <= k < i ==> !(#[trigger] self.kind_of(v@[k])).spec_inline_level(),
            decreases v.len() - i,
        {
            if self.kinds[v[i].0].is_inline_level() {
                assert(self.kind_of(v@[i as int]).spec_inline_level());
                return true;
            }
            i = i + 1;
        }
        false
    }

    /// The formatting context in which `n` takes part: the one established by
    /// its nearest strict ancestor that establishes one.
    pub fn get_formatting_context(&self, n: BoxNode) -> (r: Option<FormattingContextId>)
        requires
            self.wf(),
            self.valid(n),
        ensures
            r == self.ancestor_context(n, self.len() as nat),
    {
        let mut cur = n;
        let mut fuel = self.tree.node_count();
        while fuel > 0
            invariant
                self.wf(),
                self.valid(cur),
                self.ancestor_context(n, self.len() as nat) == self.ancestor_context(cur, fuel as nat),
            decreases fuel,
        {
            match self.tree.parent(cur) {
                None => {
                    return None;
                },
                Some(p) => {
                    let fc = self.formatting_contexts.establishes(p);
                    if fc.is_some() {
                        return fc;
                    }
                    cur = p;
                    fuel = fuel - 1;
                },
            }
        }
        None
    }
}

} // verus!
