//! Formatting contexts and the record of which box establishes which.
use vstd::prelude::*;
use crate::tree::NodeId;

verus! {

#[derive(Clone, Copy, PartialEq, Eq, Structural, Debug, Hash)]
pub struct FormattingContextId(pub usize);

#[derive(Clone, Copy, PartialEq, Eq, Structural, Debug)]
pub struct InlineFormattingContext;

#[derive(Clone, Copy, PartialEq, Eq, Structural, Debug)]
pub struct BlockFormattingContext;

#[derive(Clone, Copy, PartialEq, Eq, Structural, Debug)]
pub enum FormattingContextKind {
    InlineFormattingContext,
    BlockFormattingContext,
}

#[derive(Clone, Copy, PartialEq, Eq, Structural, Debug)]
pub enum FormattingContext {
    Inline(InlineFormattingContext),
    Block(BlockFormattingContext),
}

impl FormattingContext {
    pub fn new_inline() -> (r: FormattingContext)
        ensures
            r is Inline,
    {
        FormattingContext::Inline(InlineFormattingContext)
    }

    pub fn new_block() -> (r: FormattingContext)
        ensures
            r is Block,
    {
        FormattingContext::Block(BlockFormattingContext)
    }

    pub fn kind(&self) -> (r: FormattingContextKind)
        ensures
            r == (if *self is Inline {
                FormattingContextKind::InlineFormattingContext
            } else {
                FormattingContextKind::BlockFormattingContext
            }),
    {
        match self {
            FormattingContext::Inline(_) => FormattingContextKind::InlineFormattingContext,
            FormattingContext::Block(_) => FormattingContextKind::BlockFormattingContext,
        }
    }
}

/// The formatting contexts, and for each node the context it establishes.
pub struct FormattingContexts {
    pub contexts: Vec<FormattingContext>,
    pub establishes: Vec<Option<FormattingContextId>>,
}

impl FormattingContexts {
    pub open spec fn wf(&self) -> bool {
        forall|i: int|
            0 <= i < self.establishes@.len() && (#[trigger] self.establishes@[i]) is Some ==> self.establishes@[i].unwrap().0
                < self.contexts@.len()
    }

    /// The context that `node` establishes, if any.
    pub open spec fn established_by(&self, node: NodeId) -> Option<FormattingContextId> {
        if node.0 < self.establishes@.len() {
            self.establishes@[node.0 as int]
        } else {
            None
        }
    }

    pub fn new() -> (r: FormattingContexts)
        ensures
            r.wf(),
            r.contexts@.len() == 0,
            forall|n: NodeId| r.established_by(n) is None,
    {
        FormattingContexts { contexts: Vec::new(), establishes: Vec::new() }
    }

    /// The context that `node` establishes, if any.
    pub fn establishes(&self, node: NodeId) -> (r: Option<FormattingContextId>)
        ensures
            r == self.established_by(node),
    {
        if node.0 < self.establishes.len() {
            self.establishes[node.0]
        } else {
            None
        }
    }

    /// Allocates `fc` and records that `node` establishes it.
    pub fn establish_new_formatting_context(&mut self, node: NodeId, fc: FormattingContext) -> (r:
        FormattingContextId)
        requires
            old(self).wf(),
        ensures
            final(self).wf(),
            r.0 == old(self).contexts@.len(),
            final(self).contexts@ == old(self).contexts@.push(fc),
            final(self).established_by(node) == Some(r),
            forall|n: NodeId| n != node ==> #[trigger] final(self).established_by(n) == old(self).established_by(n),
    {
        let id = FormattingContextId(self.contexts.len());
        self.contexts.push(fc);
        let ghost e0 = self.establishes@;
        while self.establishes.len() <= node.0
            invariant
                forall|i: int| 0 <= i < e0.len() ==> self.establishes@[i] == e0[i],
                forall|i: int| e0.len() <= i < self.establishes@.len() ==> self.establishes@[i] is None,
                self.establishes@.len() >= e0.len(),
                self.contexts@ == old(self).contexts@.push(fc),
                id.0 == old(self).contexts@.len(),
                forall|i: int|
                    0 <= i < self.establishes@.len() && (#[trigger] self.establishes@[i]) is Some ==> self.establishes@[i].unwrap().0
                        < self.contexts@.len(),
            decreases node.0 + 1 - self.establishes.len(),
        {
            self.establishes.push(None);
        }
        self.establishes[node.0] = Some(id);
        id
    }
}

} // verus!
