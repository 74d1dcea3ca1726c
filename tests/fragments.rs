use pb_layout::fragment_tree::{FragmentKind, FragmentTree};
use pb_layout::fragmentation::{LineBreak, OverflowBreak};
use pb_layout::metrics::{lay, lay_all, BoxMetrics};
use pb_layout::text::TextSequence;
use pb_layout::tree::NodeId;

fn source() -> NodeId {
    NodeId(0)
}

#[test]
fn compute_box_folds_atomic_inlines_left_to_right() {
    let mut ft = FragmentTree::new();
    let line = ft.insert_line_box(100, source(), None);
    ft.insert_atomic_inline(BoxMetrics::sized(10, 5), source(), Some(line));
    ft.insert_atomic_inline(BoxMetrics::sized(7, 5), source(), Some(line));
    let b = ft.compute_box(line);
    assert_eq!(b.content.width, 17);
    assert_eq!(b.content.height, 5);
    assert_eq!(b, lay(lay(BoxMetrics::zero(), BoxMetrics::sized(10, 5)), BoxMetrics::sized(7, 5)));
    assert_eq!(*ft.borrow_box(line), b);
}

#[test]
fn compute_box_of_empty_line_is_zero() {
    let mut ft = FragmentTree::new();
    let line = ft.insert_line_box(100, source(), None);
    assert_eq!(ft.compute_box(line), BoxMetrics::zero());
}

#[test]
fn compute_box_recurses_and_ignores_breaks() {
    let mut ft = FragmentTree::new();
    let line = ft.insert_line_box(100, source(), None);
    let inner = ft.insert_inline_box(BoxMetrics::zero(), source(), Some(line));
    ft.insert_atomic_inline(BoxMetrics::sized(3, 9), source(), Some(inner));
    ft.insert_atomic_inline(BoxMetrics::sized(4, 2), source(), Some(line));
    let b = ft.compute_box(line);
    assert_eq!(b.content.width, 7);
    assert_eq!(b.content.height, 9);
    assert_eq!(ft.borrow_box(inner).content.width, 3);
}

#[test]
fn lay_saturates_and_takes_the_larger_height() {
    let a = BoxMetrics::sized(i32::MAX, 1);
    let b = BoxMetrics::sized(5, 8);
    let r = lay(a, b);
    assert_eq!(r.content.width, i32::MAX);
    assert_eq!(r.content.height, 8);
    assert_eq!(lay_all(&vec![]), BoxMetrics::zero());
    assert_eq!(lay_all(&vec![BoxMetrics::sized(2, 3)]), BoxMetrics::sized(2, 3));
}

#[test]
fn line_break_splits_text_on_newlines() {
    let mut ft = FragmentTree::new();
    let line = ft.insert_line_box(100, source(), None);
    let text = ft.insert_text_sequence(TextSequence::from_str("a\nb\nc"));
    ft.tree.attach_child(line, text);
    let broke = LineBreak.break_fragment(&mut ft, text);
    assert!(broke);
    assert_eq!(ft.texts[text.0].as_ref().unwrap().text, "a");
    let chain = ft.tree.iter_siblings(text);
    assert_eq!(chain.len(), 5);
    let kinds: Vec<FragmentKind> = chain.iter().map(|f| ft.kind(*f)).collect();
    assert_eq!(
        kinds,
        vec![
            FragmentKind::TextSequence,
            FragmentKind::Break,
            FragmentKind::TextSequence,
            FragmentKind::Break,
            FragmentKind::TextSequence
        ]
    );
    assert_eq!(ft.texts[chain[2].0].as_ref().unwrap().text, "b");
    assert_eq!(ft.texts[chain[4].0].as_ref().unwrap().text, "c");
    assert_eq!(ft.tree.iter_children(line), chain);
}

#[test]
fn line_break_without_newline_reports_false() {
    let mut ft = FragmentTree::new();
    let text = ft.insert_text_sequence(TextSequence::from_str("abc"));
    assert!(!LineBreak.break_fragment(&mut ft, text));
    assert_eq!(ft.tree.node_count(), 1);
    assert_eq!(ft.texts[text.0].as_ref().unwrap().text, "abc");
}

#[test]
fn line_break_ignores_other_kinds() {
    let mut ft = FragmentTree::new();
    let line = ft.insert_line_box(10, source(), None);
    assert!(!LineBreak.break_fragment(&mut ft, line));
}

fn inline_box_with_two_atoms() -> (FragmentTree, NodeId, NodeId, NodeId) {
    let mut ft = FragmentTree::new();
    let ib = ft.insert_inline_box(BoxMetrics::zero(), source(), None);
    let a = ft.insert_atomic_inline(BoxMetrics::sized(6, 1), source(), Some(ib));
    let b = ft.insert_atomic_inline(BoxMetrics::sized(6, 1), source(), Some(ib));
    ft.compute_box(ib);
    (ft, ib, a, b)
}

#[test]
fn overflow_break_inserts_one_break_between_atoms() {
    let (mut ft, ib, a, b) = inline_box_with_two_atoms();
    let broke = OverflowBreak { max_length: 10 }.break_fragment(&mut ft, ib);
    assert!(broke);
    let kids = ft.tree.iter_children(ib);
    assert_eq!(kids.len(), 3);
    assert_eq!(kids[0], a);
    assert!(ft.is_break(kids[1]));
    assert_eq!(kids[2], b);
}

#[test]
fn overflow_break_within_limit_changes_nothing() {
    let (mut ft, ib, a, b) = inline_box_with_two_atoms();
    let before = ft.tree.node_count();
    let broke = OverflowBreak { max_length: 20 }.break_fragment(&mut ft, ib);
    assert!(!broke);
    assert_eq!(ft.tree.node_count(), before);
    assert_eq!(ft.tree.iter_children(ib), vec![a, b]);
}

#[test]
fn overflow_break_reports_an_existing_break() {
    let mut ft = FragmentTree::new();
    let ib = ft.insert_inline_box(BoxMetrics::zero(), source(), None);
    let brk = ft.insert_break();
    ft.tree.attach_child(ib, brk);
    ft.insert_atomic_inline(BoxMetrics::sized(30, 1), source(), Some(ib));
    ft.compute_box(ib);
    let before = ft.tree.node_count();
    assert!(OverflowBreak { max_length: 10 }.break_fragment(&mut ft, ib));
    assert_eq!(ft.tree.node_count(), before);
}

#[test]
fn overflow_break_descends_into_fragmentable_child() {
    let mut ft = FragmentTree::new();
    let line = ft.insert_line_box(100, source(), None);
    ft.insert_atomic_inline(BoxMetrics::sized(4, 1), source(), Some(line));
    let ib = ft.insert_inline_box(BoxMetrics::zero(), source(), Some(line));
    let x = ft.insert_atomic_inline(BoxMetrics::sized(5, 1), source(), Some(ib));
    let y = ft.insert_atomic_inline(BoxMetrics::sized(5, 1), source(), Some(ib));
    ft.compute_box(line);
    assert!(OverflowBreak { max_length: 10 }.break_fragment(&mut ft, line));
    let inner = ft.tree.iter_children(ib);
    assert_eq!(inner.len(), 3);
    assert_eq!(inner[0], x);
    assert!(ft.is_break(inner[1]));
    assert_eq!(inner[2], y);
    assert_eq!(ft.tree.iter_children(line).len(), 2);
}

#[test]
fn single_atomic_inline_cannot_be_broken() {
    let mut ft = FragmentTree::new();
    let ib = ft.insert_inline_box(BoxMetrics::zero(), source(), None);
    ft.insert_atomic_inline(BoxMetrics::sized(30, 1), source(), Some(ib));
    ft.compute_box(ib);
    assert!(!OverflowBreak { max_length: 10 }.break_fragment(&mut ft, ib));
    assert_eq!(ft.tree.iter_children(ib).len(), 1);
}

#[test]
fn fragment_kind_queries() {
    let mut ft = FragmentTree::new();
    let ib = ft.insert_inline_box(BoxMetrics::zero(), source(), None);
    let atom = ft.insert_atomic_inline(BoxMetrics::sized(1, 1), source(), Some(ib));
    assert!(ft.is_fragmentable(ib));
    assert!(!ft.is_fragmentable(atom));
    assert!(!ft.is_breakable(ib));
    assert!(ft.is(atom, FragmentKind::AtomicInline));
    assert!(!ft.contains_only_inline_level_content(ib));
    assert!(ft.is_inline_level_content(ib));
    let brk = ft.insert_break();
    ft.tree.attach_child(ib, brk);
    assert!(ft.is_breakable(ib));
    assert!(FragmentKind::TextSequence.is_inline_level_content());
    assert!(!FragmentKind::LineBox.is_inline_level_content());
}

#[test]
fn clone_fragment_copies_data_without_links() {
    let mut ft = FragmentTree::new();
    let line = ft.insert_line_box(42, source(), None);
    ft.insert_atomic_inline(BoxMetrics::sized(1, 1), source(), Some(line));
    let copy = ft.clone_fragment(line);
    assert_eq!(ft.kind(copy), FragmentKind::LineBox);
    assert_eq!(ft.line_boxes[copy.0], ft.line_boxes[line.0]);
    assert_eq!(ft.tree.iter_children(copy), vec![]);
    assert_eq!(ft.tree.parent(copy), None);
}

#[test]
fn fragment_splits_children_at_breaks() {
    let mut ft = FragmentTree::new();
    let block = ft.insert_line_box(100, source(), None);
    let ib = ft.insert_inline_box(BoxMetrics::zero(), source(), Some(block));
    let a = ft.insert_atomic_inline(BoxMetrics::sized(1, 1), source(), Some(ib));
    let brk = ft.insert_break();
    ft.tree.attach_child(ib, brk);
    let b = ft.insert_atomic_inline(BoxMetrics::sized(2, 1), source(), Some(ib));
    let before = ft.tree.node_count();
    assert!(pb_layout::fragmentation::fragment(&mut ft, ib));
    assert_eq!(ft.tree.node_count(), before + 2);
    assert_eq!(ft.tree.iter_children(ib), vec![]);
    let chain = ft.tree.iter_siblings(ib);
    assert_eq!(chain.len(), 4);
    let (f0, f1) = (chain[1], chain[3]);
    assert_eq!(chain[2], brk);
    assert_eq!(ft.kind(f0), FragmentKind::InlineBox);
    assert_eq!(ft.kind(f1), FragmentKind::InlineBox);
    assert_eq!(ft.tree.iter_children(f0), vec![a]);
    assert_eq!(ft.tree.iter_children(f1), vec![b]);
    assert_eq!(ft.tree.iter_children(block), vec![ib, f0, brk, f1]);
    assert_eq!(ft.tree.parent(f1), Some(block));
}

#[test]
fn fragment_without_breaks_does_nothing() {
    let mut ft = FragmentTree::new();
    let ib = ft.insert_inline_box(BoxMetrics::zero(), source(), None);
    let a = ft.insert_atomic_inline(BoxMetrics::sized(1, 1), source(), Some(ib));
    assert!(!pb_layout::fragmentation::fragment(&mut ft, ib));
    assert_eq!(ft.tree.iter_children(ib), vec![a]);
    assert_eq!(ft.tree.node_count(), 2);
}

#[test]
fn outer_size_adds_all_edges() {
    let mut b = BoxMetrics::sized(10, 20);
    b.padding.left = 1;
    b.padding.right = 2;
    b.margin.top = 3;
    b.border.bottom = 4;
    let o = b.outer();
    assert_eq!(o.width, 13);
    assert_eq!(o.height, 27);
}
