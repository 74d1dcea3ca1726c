use pb_layout::context::{RenderingContext, RenderingContextArgs};
use pb_layout::box_tree::{BoxFlags, BoxNodeKind, BoxTree, ComputedProperties};
use pb_layout::display::{Display, DisplayBox, DisplayInside, DisplayInternal, DisplayOutside};
use pb_layout::formatting_context::{FormattingContext, FormattingContextKind};
use pb_layout::layout::{check_if_anonymous_box_is_required, generate_box_tree, Document, GenerationError, Unsupported};
use pb_layout::style::{Properties, Visibility};
use pb_layout::tree::NodeId;

fn props(display: Display) -> Properties {
    Properties::with_display(display)
}

#[test]
fn anonymous_block_wraps_inline_child_and_shares_properties() {
    let mut doc = Document::new();
    let div = doc.add_element(props(Display::block()), None);
    let span = doc.add_element(props(Display::inline()), Some(div));
    let p = doc.add_element(props(Display::block()), Some(div));
    let _ = (span, p);
    let mut bt = BoxTree::new();
    generate_box_tree(&doc, &mut bt).unwrap();
    let root = bt.tree.root().unwrap();
    assert!(bt.kind(root).is_block_container());
    let kids = bt.tree.iter_children(root);
    assert_eq!(kids.len(), 2);
    let anon = kids[0];
    assert!(bt.kind(anon).is_block_level());
    let wrapped = bt.tree.iter_children(anon);
    assert_eq!(wrapped.len(), 1);
    assert!(bt.kind(wrapped[0]).is_inline_level());
    assert!(bt.kind(kids[1]).is_block_container());

    assert_eq!(bt.properties(anon), bt.properties(root));
    let mut changed = bt.properties(root);
    changed.visibility = Visibility::Hidden;
    bt.set_properties(root, changed);
    assert_eq!(bt.properties(anon).visibility, Visibility::Hidden);
    assert_eq!(bt.properties(anon), changed);
}

#[test]
fn block_with_only_inline_children_gets_root_inline_box() {
    let mut doc = Document::new();
    let div = doc.add_element(props(Display::block()), None);
    doc.add_text("hello", props(Display::inline()), Some(div));
    doc.add_element(props(Display::inline()), Some(div));
    let mut bt = BoxTree::new();
    generate_box_tree(&doc, &mut bt).unwrap();
    let root = bt.tree.root().unwrap();
    let kids = bt.tree.iter_children(root);
    assert_eq!(kids.len(), 1);
    let root_inline = kids[0];
    assert!(bt.kind(root_inline).is_inline_level());
    let inner = bt.tree.iter_children(root_inline);
    assert_eq!(inner.len(), 2);
    assert_eq!(bt.kind(inner[0]), BoxNodeKind::TextSequence);
    assert!(bt.formatting_contexts.establishes(root).is_some());
    let fc = bt.get_formatting_context(inner[0]).unwrap();
    assert_eq!(bt.formatting_contexts.contexts[fc.0].kind(), FormattingContextKind::InlineFormattingContext);
}

#[test]
fn root_establishes_a_block_formatting_context() {
    let mut doc = Document::new();
    let div = doc.add_element(props(Display::block()), None);
    doc.add_element(props(Display::block()), Some(div));
    let mut bt = BoxTree::new();
    generate_box_tree(&doc, &mut bt).unwrap();
    let root = bt.tree.root().unwrap();
    let fc = bt.formatting_contexts.establishes(root).unwrap();
    assert_eq!(bt.formatting_contexts.contexts[fc.0].kind(), FormattingContextKind::BlockFormattingContext);
    let child = bt.tree.first_child(root).unwrap();
    assert_eq!(bt.get_formatting_context(child), Some(fc));
    assert_eq!(bt.get_formatting_context(root), None);
}

#[test]
fn display_none_skips_the_subtree() {
    let mut doc = Document::new();
    let div = doc.add_element(props(Display::block()), None);
    let hidden = doc.add_element(props(Display::none()), Some(div));
    doc.add_element(props(Display::block()), Some(hidden));
    doc.add_element(props(Display::block()), Some(div));
    let mut bt = BoxTree::new();
    generate_box_tree(&doc, &mut bt).unwrap();
    let root = bt.tree.root().unwrap();
    assert_eq!(bt.tree.iter_children(root).len(), 1);
}

#[test]
fn flow_root_establishes_block_context() {
    let mut doc = Document::new();
    let div = doc.add_element(props(Display::block()), None);
    let fr = doc.add_element(props(Display::from_parts(DisplayOutside::Block, DisplayInside::FlowRoot)), Some(div));
    doc.add_element(props(Display::block()), Some(fr));
    let mut bt = BoxTree::new();
    generate_box_tree(&doc, &mut bt).unwrap();
    let root = bt.tree.root().unwrap();
    let child = bt.tree.first_child(root).unwrap();
    let fc = bt.formatting_contexts.establishes(child).unwrap();
    assert_eq!(bt.formatting_contexts.contexts[fc.0].kind(), FormattingContextKind::BlockFormattingContext);
}

fn generation_error(display: Display) -> GenerationError {
    let mut doc = Document::new();
    let div = doc.add_element(props(Display::block()), None);
    doc.add_element(props(display), Some(div));
    let mut bt = BoxTree::new();
    match generate_box_tree(&doc, &mut bt) {
        Ok(_) => panic!("generation should fail"),
        Err(e) => e,
    }
}

#[test]
fn unimplemented_display_types_fail() {
    assert_eq!(generation_error(Display::contents()), GenerationError::NotImplemented(Unsupported::Contents));
    assert_eq!(generation_error(Display::table()), GenerationError::NotImplemented(Unsupported::Table));
    assert_eq!(generation_error(Display::flex()), GenerationError::NotImplemented(Unsupported::Flex));
    assert_eq!(generation_error(Display::grid()), GenerationError::NotImplemented(Unsupported::Grid));
    assert_eq!(generation_error(Display::ruby()), GenerationError::NotImplemented(Unsupported::Ruby));
    assert_eq!(
        generation_error(DisplayInternal::TableCell.into_display()),
        GenerationError::NotImplemented(Unsupported::Internal)
    );
    let mut doc = Document::new();
    let div = doc.add_element(props(Display::block()), None);
    doc.add_element(props(Display(3 | (1 << 2) | (1 << 4))), Some(div));
    let mut bt = BoxTree::new();
    generate_box_tree(&doc, &mut bt).unwrap();
    let root = bt.tree.root().unwrap();
    let item = bt.tree.first_child(root).unwrap();
    assert!(bt.kind(item).is_block_container());
}

#[test]
fn inline_outer_defaults_and_box_flags() {
    assert!(BoxFlags::block_container().is_block_container());
    assert!(BoxFlags::block_level().is_block_level());
    assert!(!BoxFlags::block_level().is_block_container());
    assert!(BoxFlags::inline_level().is_inline_level());
    assert!(BoxFlags::root_inline_box().is_inline_level());
    assert!(!BoxFlags::run_in_level().is_inline_level());
    assert!(!BoxFlags::run_in_level().is_block_level());
    assert!(!BoxFlags::inline_level().is_atomic_inline_level());
    assert!(BoxFlags(0b1010).is_atomic_inline_level());
    assert!(BoxNodeKind::TextSequence.is_inline_level());
    assert!(!BoxNodeKind::TextSequence.is_block_level());
    assert!(!BoxNodeKind::TextSequence.is_atomic_inline());
    assert!(BoxNodeKind::Box(BoxFlags(0b1010)).is_atomic_inline());
    assert!(FormattingContext::new_inline().kind() == FormattingContextKind::InlineFormattingContext);
    assert!(FormattingContext::new_block().kind() == FormattingContextKind::BlockFormattingContext);
}

#[test]
fn insert_box_with_shared_properties_aliases() {
    let mut bt = BoxTree::new();
    let a = bt.insert_box(BoxFlags::block_container(), ComputedProperties::Properties(props(Display::block())), None);
    let b = bt.insert_box(BoxFlags::block_level(), ComputedProperties::SameAs(a), Some(a));
    let t = bt.insert_text_sequence("x", props(Display::inline()), Some(a));
    assert_eq!(bt.tree.iter_children(a), vec![b, t]);
    assert!(bt.has_inline_level_boxes(a));
    assert!(!bt.has_only_inline_level_boxes(a));
    let mut p = bt.properties(b);
    p.visibility = Visibility::Collapse;
    bt.set_properties(b, p);
    assert_eq!(bt.properties(a).visibility, Visibility::Collapse);
    assert_eq!(bt.properties(t).visibility, Visibility::Visible);
    assert_eq!(bt.node_count(), 3);
    let _ = NodeId(0);
    let _ = DisplayBox::NoBox;
}

#[test]
fn style_pass_blockifies_the_root_and_inlinify_recurses() {
    let mut doc = Document::new();
    let root = doc.add_element(props(Display::inline()), None);
    let child = doc.add_element(props(Display::block()), Some(root));
    doc.style();
    assert_eq!(doc.styles[root.0].display.outer(), Some(DisplayOutside::Block));
    let mut doc2 = Document::new();
    let span = doc2.add_element(props(Display::inline()), None);
    let inner = doc2.add_element(props(Display::block()), Some(span));
    doc2.inlinify_node(span, 4);
    assert_eq!(doc2.styles[inner.0].display.outer(), Some(DisplayOutside::Inline));
    assert_eq!(doc2.styles[inner.0].display.inner(), Some(DisplayInside::FlowRoot));
    doc2.blockify_node(inner);
    assert_eq!(doc2.styles[inner.0].display.outer(), Some(DisplayOutside::Block));
    let _ = child;
}

#[test]
fn rendering_context_generates_boxes_after_styling() {
    let mut doc = Document::new();
    let root = doc.add_element(props(Display::inline()), None);
    doc.add_text("t", props(Display::inline()), Some(root));
    let mut ctx = RenderingContext::new(RenderingContextArgs { dom: doc });
    assert_eq!(ctx.boxes.node_count(), 0);
    assert!(ctx.generate().is_ok());
    let broot = ctx.boxes.tree.root().unwrap();
    assert!(ctx.boxes.kind(broot).is_block_container());
    assert!(ctx.boxes.formatting_contexts.establishes(broot).is_some());
}

#[test]
fn anonymous_box_takes_the_place_of_the_node_and_aliases_the_container() {

    let mut bt = BoxTree::new();
    let c = bt.insert_box(BoxFlags::block_container(), ComputedProperties::Properties(props(Display::block())), None);
    let i = bt.insert_box(BoxFlags::inline_level(), ComputedProperties::Properties(props(Display::inline())), Some(c));
    let b = bt.insert_box(BoxFlags::block_container(), ComputedProperties::Properties(props(Display::block())), Some(c));
    assert_eq!(check_if_anonymous_box_is_required(&mut bt, i), Ok(true));
    let kids = bt.tree.iter_children(c);
    assert_eq!(kids.len(), 2);
    let a = kids[0];
    assert_eq!(kids[1], b);
    assert!(bt.kind(a).is_block_level());
    assert_eq!(bt.tree.iter_children(a), vec![i]);
    let mut p = bt.properties(c);
    p.visibility = Visibility::Hidden;
    bt.set_properties(c, p);
    assert_eq!(bt.properties(a).visibility, Visibility::Hidden);
    assert_eq!(check_if_anonymous_box_is_required(&mut bt, a), Ok(false));
}
