use pb_layout::tree::{NodeId, Split, SplitMode, Tree};

fn tree_with_children(n: usize) -> (Tree, NodeId, Vec<NodeId>) {
    let mut t = Tree::new();
    let parent = t.bind_edges();
    let mut kids = Vec::new();
    for _ in 0..n {
        let c = t.bind_edges();
        t.attach_child(parent, c);
        kids.push(c);
    }
    (t, parent, kids)
}

#[test]
fn attached_children_are_listed_once_with_their_parent() {
    let (t, parent, kids) = tree_with_children(3);
    assert_eq!(t.root(), Some(parent));
    assert_eq!(t.parent(parent), None);
    for k in &kids {
        assert_eq!(t.parent(*k), Some(parent));
        let listed = t.iter_children(parent);
        assert_eq!(listed.iter().filter(|c| *c == k).count(), 1);
    }
    assert_eq!(t.iter_children(parent), kids);
}

#[test]
fn push_sibling_inserts_right_after_node() {
    let (mut t, parent, kids) = tree_with_children(3);
    let b = t.bind_edges();
    t.push_sibling(kids[0], b);
    assert_eq!(t.iter_siblings(kids[0]), vec![kids[0], b, kids[1], kids[2]]);
    assert_eq!(t.iter_children(parent).len(), 4);
    assert_eq!(t.parent(b), Some(parent));
}

#[test]
fn split_children_after_matching_child() {
    let (mut t, parent, kids) = tree_with_children(3);
    let c2 = kids[1];
    let split = t.split_children(parent, |n: NodeId| n == c2, SplitMode::After);
    assert_eq!(split, Some(Split { left: kids[1], right: kids[2] }));
    assert_eq!(t.iter_children(parent), vec![kids[0], kids[1]]);
}

#[test]
fn split_children_before_matching_child() {
    let (mut t, parent, kids) = tree_with_children(3);
    let c2 = kids[1];
    let split = t.split_children(parent, |n: NodeId| n == c2, SplitMode::Before);
    assert_eq!(split, Some(Split { left: kids[0], right: kids[1] }));
    assert_eq!(t.iter_children(parent), vec![kids[0]]);
}

#[test]
fn split_children_without_match_or_tail_is_none() {
    let (mut t, parent, kids) = tree_with_children(3);
    let last = kids[2];
    assert_eq!(t.split_children(parent, |_n: NodeId| false, SplitMode::After), None);
    assert_eq!(t.split_children(parent, |n: NodeId| n == last, SplitMode::After), None);
    let first = kids[0];
    assert_eq!(t.split_children(parent, |n: NodeId| n == first, SplitMode::Before), None);
    assert_eq!(t.iter_children(parent), kids);
}

#[test]
fn remove_head_child() {
    let (mut t, parent, kids) = tree_with_children(3);
    t.remove_child(kids[0]);
    assert_eq!(t.first_child(parent), Some(kids[1]));
    assert!(!t.iter_children(parent).contains(&kids[0]));
    assert_eq!(t.iter_children(parent), vec![kids[1], kids[2]]);
}

#[test]
fn remove_inner_child_cuts_the_chain() {
    let (mut t, parent, kids) = tree_with_children(3);
    t.remove_child(kids[1]);
    assert_eq!(t.iter_children(parent), vec![kids[0]]);
    assert_eq!(t.parent(kids[1]), Some(parent));
}

#[test]
fn pop_sibling_detaches_the_tail() {
    let (mut t, parent, kids) = tree_with_children(3);
    assert_eq!(t.pop_sibling(kids[0]), Some(kids[1]));
    assert_eq!(t.iter_children(parent), vec![kids[0]]);
    assert_eq!(t.parent(kids[1]), Some(parent));
    assert_eq!(t.pop_sibling(kids[0]), None);
}

#[test]
fn interpose_child_wraps_all_children() {
    let (mut t, parent, kids) = tree_with_children(3);
    let w = t.bind_edges();
    t.interpose_child(parent, w);
    assert_eq!(t.iter_children(parent), vec![w]);
    assert_eq!(t.iter_children(w), kids);
    for k in &kids {
        assert_eq!(t.parent(*k), Some(w));
    }
    assert_eq!(t.parent(w), Some(parent));
}

#[test]
fn previous_last_and_leaf_queries() {
    let (t, parent, kids) = tree_with_children(3);
    assert_eq!(t.previous_sibling(kids[0]), None);
    assert_eq!(t.previous_sibling(kids[2]), Some(kids[1]));
    assert_eq!(t.last_child(parent), Some(kids[2]));
    assert_eq!(t.last_sibling(kids[0]), Some(kids[2]));
    assert_eq!(t.next_sibling(kids[2]), None);
    assert!(t.is_leaf(kids[0]));
    assert!(!t.is_leaf(parent));
}

#[test]
fn attach_children_keeps_order() {
    let mut t = Tree::new();
    let p = t.bind_edges();
    let a = t.bind_edges();
    let b = t.bind_edges();
    let c = t.bind_edges();
    t.attach_children(p, &vec![a, b, c]);
    assert_eq!(t.iter_children(p), vec![a, b, c]);
    assert_eq!(t.node_count(), 4);
}

#[test]
fn push_parent_wraps_one_child_in_place() {
    let (mut t, parent, kids) = tree_with_children(3);
    let w = t.bind_edges();
    t.push_parent(kids[1], w);
    assert_eq!(t.iter_children(parent), vec![kids[0], w, kids[2]]);
    assert_eq!(t.iter_children(w), vec![kids[1]]);
    assert_eq!(t.parent(kids[1]), Some(w));
    assert_eq!(t.parent(w), Some(parent));
}

#[test]
fn push_parent_on_head_child() {
    let (mut t, parent, kids) = tree_with_children(2);
    let w = t.bind_edges();
    t.push_parent(kids[0], w);
    assert_eq!(t.iter_children(parent), vec![w, kids[1]]);
    assert_eq!(t.first_child(parent), Some(w));
}

#[test]
fn detach_children_leaves_parent_empty() {
    let (mut t, parent, kids) = tree_with_children(3);
    let out = t.detach_children(parent);
    assert_eq!(out, kids);
    assert!(t.is_leaf(parent));
    for k in &kids {
        assert_eq!(t.next_sibling(*k), None);
    }
}

#[test]
fn walks_visit_breadth_first_and_upwards() {
    let (mut t, parent, kids) = tree_with_children(2);
    let g = t.bind_edges();
    t.attach_child(kids[0], g);
    assert_eq!(t.walk(), vec![parent, kids[0], kids[1], g]);
    assert_eq!(t.walk_from(kids[0]), vec![kids[0], g]);
    assert_eq!(t.walk_ascendants(g), vec![g, kids[0], parent]);
}

#[test]
fn split_children_at_target() {
    let (mut t, parent, kids) = tree_with_children(3);
    assert_eq!(t.split_children_at(parent, kids[1], SplitMode::After), Some(Split { left: kids[1], right: kids[2] }));
    assert_eq!(t.iter_children(parent), vec![kids[0], kids[1]]);
    assert_eq!(t.next_sibling(kids[1]), None);
    let (mut t2, parent2, kids2) = tree_with_children(3);
    assert_eq!(t2.split_children_at(parent2, kids2[0], SplitMode::Before), None);
    assert_eq!(t2.split_children_at(parent2, kids2[2], SplitMode::After), None);
    assert_eq!(t2.split_children_at(parent2, parent2, SplitMode::After), None);
    assert_eq!(t2.iter_children(parent2), kids2);
}

#[test]
fn push_sibling_gives_the_tail_the_parent() {
    let mut t = Tree::new();
    let p = t.bind_edges();
    let a = t.bind_edges();
    let b = t.bind_edges();
    let c = t.bind_edges();
    t.attach_child(p, a);
    t.insert_after(a, c);
    let d = t.bind_edges();
    let q = t.bind_edges();
    t.attach_child(q, d);
    t.remove_child(d);
    assert_eq!(t.parent(d), Some(q));
    t.push_sibling(c, d);
    t.push_sibling(a, b);
    assert_eq!(t.iter_siblings(a), vec![a, b, c, d]);
    assert_eq!(t.parent(b), Some(p));
    assert_eq!(t.parent(c), Some(p));
    assert_eq!(t.parent(d), Some(p));
}
