//! A rendering context: a document and the box tree generated from it.
use vstd::prelude::*;
use crate::box_tree::BoxTree;
use crate::layout::{generate_box_tree, root_blockified, tree_outcome, Document, GenerationError};

verus! {

/// Arguments of a rendering context.
pub struct RenderingContextArgs {
    pub dom: Document,
}

pub struct RenderingContext {
    pub dom: Document,
    pub boxes: BoxTree,
}

impl RenderingContext {
    /// A context over `args.dom` with an empty box tree.
    pub fn new(args: RenderingContextArgs) -> (r: RenderingContext)
        requires
            args.dom.wf(),
        ensures
            r.dom == args.dom,
            r.boxes.wf(),
            r.boxes.len() == 0,
    {
        RenderingContext { dom: args.dom, boxes: BoxTree::new() }
    }

    /// Runs the style pass (the root is blockified), then generates the box
    /// tree of the styled document into a fresh tree.
    pub fn generate(&mut self) -> (r: Result<(), GenerationError>)
        requires
            old(self).dom.wf(),
        ensures
            final(self).dom.wf(),
            final(self).dom.tree == old(self).dom.tree,
            final(self).dom.kinds@ == old(self).dom.kinds@,
            old(self).dom.tree.root is Some ==> root_blockified(
                &old(self).dom,
                &final(self).dom,
                old(self).dom.tree.root.unwrap(),
            ),
            final(self).boxes.wf(),
            tree_outcome(&final(self).dom, &final(self).boxes, r),
    {
        self.dom.style();
        self.boxes = BoxTree::new();
        generate_box_tree(&self.dom, &mut self.boxes)
    }
}

} // verus!
