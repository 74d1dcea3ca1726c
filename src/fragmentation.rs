//! Fragmentation: newline splitting, overflow-driven breaking and the
//! reification of forced breaks.
use vstd::prelude::*;
use crate::fragment_tree::{Fragment, FragmentKind, FragmentTree};
use crate::metrics::{lay, spec_lay, zero_box, BoxMetrics};
use crate::text::{split_lines, TextSequence};
use crate::tree::{lemma_upto_at, relink, upto, NodeId, Tree, TreeEdges};

verus! {

/// Splits text fragments at newlines.
#[derive(Clone, Copy, PartialEq, Eq, Structural, Debug)]
pub struct LineBreak;

/// The fragments that a line break adds after a text fragment: a break and
/// a text fragment for each segment after the first, numbered from `base`.
pub open spec fn added_nodes(base: int, count: int) -> Seq<NodeId> {
    Seq::new(count as nat, |k: int| NodeId((base + k) as usize))
}

impl LineBreak {
    /// Splits the text of a text fragment at each newline. The fragment keeps
    /// the first segment; each further segment becomes a new text fragment,
    /// preceded by a new break, chained in order right after the fragment.
    /// Returns whether there was more than one segment; any other kind of
    /// fragment is left as it is.
    pub fn break_fragment(&self, ft: &mut FragmentTree, node: Fragment) -> (r: bool)
        requires
            old(ft).wf(),
            old(ft).valid(node),
            old(ft).kind_of(node) == FragmentKind::TextSequence ==> old(ft).len() + 2 * split_lines(
                old(ft).texts@[node.0 as int].unwrap().text@,
            ).len() < usize::MAX,
        ensures
            final(ft).wf(),
            old(ft).kind_of(node) != FragmentKind::TextSequence ==> !r && *final(ft) == *old(ft),
            old(ft).kind_of(node) == FragmentKind::TextSequence ==> {
                let lines = split_lines(old(ft).texts@[node.0 as int].unwrap().text@);
                let m = lines.len() as int;
                &&& r == (m > 1)
                &&& final(ft).len() == old(ft).len() + 2 * (m - 1)
                &&& final(ft).texts@[node.0 as int].unwrap().text@ == lines[0]
                &&& final(ft).tree.succs(node.0 as int) == added_nodes(old(ft).len(), 2 * (m - 1)) + old(
                    ft,
                ).tree.succs(node.0 as int)
                &&& forall|k: int|
                    0 <= k < m - 1 ==> #[trigger] final(ft).kinds_view()[old(ft).len() + 2 * k] == FragmentKind::Break
                &&& forall|k: int|
                    0 <= k < m - 1 ==> #[trigger] final(ft).kinds_view()[old(ft).len() + 2 * k + 1]
                        == FragmentKind::TextSequence
                &&& forall|k: int|
                    0 <= k < m - 1 ==> final(ft).texts@[old(ft).len() + 2 * k + 1].unwrap().text@ == #[trigger] lines[k
                        + 1]
            },
    {
        if ft.kind(node) != FragmentKind::TextSequence {
            return false;
        }
        let ghost t0: FragmentTree = *ft;
        let ghost base = t0.len();
        let pieces = match &ft.texts[node.0] {
            Some(t) => t.split_by_line_breaks(),
            None => Vec::new(),
        };
        let ghost lines = split_lines(t0.texts@[node.0 as int].unwrap().text@);
        proof {
            crate::text::lemma_split_lines_nonempty_pub(t0.texts@[node.0 as int].unwrap().text@);
            t0.tree.lemma_succ_step(node.0 as int);
        }
        let m = pieces.len();
        let first = TextSequence { text: pieces[0].text.clone() };
        ft.texts[node.0] = Some(first);
        let mut prev = node;
        let mut i: usize = 1;
        let ghost mut added: Seq<NodeId> = Seq::empty();
        assert(ft.tree.succs(node.0 as int) =~= added + t0.tree.succs(node.0 as int));
        while i < m
            invariant
                ft.wf(),
                t0.wf(),
                base == t0.len(),
                pieces@.len() == m,
                m == lines.len(),
                m >= 1,
                1 <= i <= m,
                forall|k: int| 0 <= k < m ==> (#[trigger] pieces@[k]).text@ == lines[k],
                ft.len() == base + 2 * (i - 1),
                ft.len() + 2 * (m - i) + 2 < usize::MAX,
                added == added_nodes(base, 2 * (i - 1)),
                prev == (if i == 1 { node } else { added.last() }),
                ft.valid(prev),
                node.0 < base,
                ft.texts@[node.0 as int].unwrap().text@ == lines[0],
                ft.tree.succs(node.0 as int) == added + t0.tree.succs(node.0 as int),
                ft.tree.succs(prev.0 as int) == t0.tree.succs(node.0 as int),
                forall|k: int| 0 <= k < t0.tree.succs(node.0 as int).len() ==> (#[trigger] t0.tree.succs(node.0 as int)[k]).0 < base,
                forall|k: int| 0 <= k < i - 1 ==> #[trigger] ft.kinds_view()[base + 2 * k] == FragmentKind::Break,
                forall|k: int| 0 <= k < i - 1 ==> #[trigger] ft.kinds_view()[base + 2 * k + 1] == FragmentKind::TextSequence,
                forall|k: int| 0 <= k < i - 1 ==> ft.texts@[base + 2 * k + 1].unwrap().text@ == #[trigger] lines[k + 1],
            decreases m - i,
        {
            let ghost before: FragmentTree = *ft;
            let ghost o = t0.tree.succs(node.0 as int);
            let brk = ft.insert_break();
            let ghost mid: FragmentTree = *ft;
            proof {
                if prev != node {
                    assert(added[added.len() - 1] == prev);
                    assert(before.tree.succ@[node.0 as int][added.len() - 1] == prev);
                    before.tree.lemma_split_chain_at(node.0 as int, prev);
                    let s0 = before.tree.succ@[node.0 as int];
                    let u = upto(s0, prev);
                    assert(s0 == u + o);
                    assert(s0 == added + o);
                    assert(u.len() == added.len());
                    assert forall|k: int| 0 <= k < u.len() implies u[k] == added[k] by {
                        assert(s0[k] == u[k]);
                        assert(s0[k] == added[k]);
                    }
                    assert(u =~= added);
                }
            }
            ft.tree.insert_after(prev, brk);
            let ghost after1: FragmentTree = *ft;
            proof {
                assert(!o.contains(prev)) by {
                    if o.contains(prev) {
                        let k = choose|k: int| 0 <= k < o.len() && o[k] == prev;
                        if prev == node {
                            t0.tree.lemma_succ_distinct(node.0 as int);
                            assert(t0.tree.chain(node.0 as int)[k + 1] == node);
                            assert(t0.tree.chain(node.0 as int)[0] == node);
                        }
                    }
                }
                assert(after1.tree.succ@[brk.0 as int] == o);
                assert(after1.tree.succ@[node.0 as int] == added.push(brk) + o) by {
                    if prev == node {
                        assert(added.push(brk) + o =~= seq![brk] + o);
                    } else {
                        assert(mid.tree.succ@[node.0 as int] == before.tree.succ@[node.0 as int]);
                        assert(upto(before.tree.succ@[node.0 as int], prev) + seq![brk] + o =~= added.push(brk) + o);
                    }
                }
            }
            let seq = TextSequence { text: pieces[i].text.clone() };
            let frag = ft.insert_text_sequence(seq);
            let ghost mid2: FragmentTree = *ft;
            proof {
                assert(mid2.tree.succ@[node.0 as int] == added.push(brk) + o);
                assert(mid2.tree.succ@[node.0 as int][added.len() as int] == brk);
                mid2.tree.lemma_split_chain_at(node.0 as int, brk);
                assert(mid2.tree.succ@[brk.0 as int] == o);
                let s1 = mid2.tree.succ@[node.0 as int];
                let u1 = upto(s1, brk);
                let a1 = added.push(brk);
                assert(s1 == u1 + o);
                assert(s1 == a1 + o);
                assert(u1.len() == a1.len());
                assert forall|k: int| 0 <= k < u1.len() implies u1[k] == a1[k] by {
                    assert(s1[k] == u1[k]);
                    assert(s1[k] == a1[k]);
                }
                assert(u1 =~= a1);
            }
            ft.tree.insert_after(brk, frag);
            proof {
                assert(!o.contains(brk));
                assert(ft.tree.succ@[node.0 as int] =~= added.push(brk).push(frag) + o);
                assert(added.push(brk).push(frag) =~= added_nodes(base, 2 * i));
                added = added.push(brk).push(frag);
                assert(ft.tree.succ@[frag.0 as int] == o);
                assert forall|k: int| 0 <= k < i implies #[trigger] ft.kinds_view()[base + 2 * k] == FragmentKind::Break by {
                    if k < i - 1 {
                        assert(before.kinds_view()[base + 2 * k] == ft.kinds_view()[base + 2 * k]);
                    } else {
                        assert(brk.0 == base + 2 * k);
                    }
                }
                assert forall|k: int| 0 <= k < i implies #[trigger] ft.kinds_view()[base + 2 * k + 1]
                    == FragmentKind::TextSequence by {
                    if k < i - 1 {
                        assert(before.kinds_view()[base + 2 * k + 1] == ft.kinds_view()[base + 2 * k + 1]);
                    } else {
                        assert(frag.0 == base + 2 * k + 1);
                    }
                }
                assert forall|k: int| 0 <= k < i implies ft.texts@[base + 2 * k + 1].unwrap().text@
                    == #[trigger] lines[k + 1] by {
                    if k < i - 1 {
                        assert(before.texts@[base + 2 * k + 1] == ft.texts@[base + 2 * k + 1]);
                    } else {
                        assert(frag.0 == base + 2 * k + 1);
                        assert(ft.texts@[frag.0 as int].unwrap().text@ == pieces@[i as int].text@);
                    }
                }
            }
            prev = frag;
            i = i + 1;
        }
        proof {
            assert(added == added_nodes(base, 2 * (m - 1)));
        }
        m > 1
    }
}

/// What an overflow break does.
#[derive(Clone, Copy, PartialEq, Eq, Structural, Debug)]
pub enum BreakPlan {
    /// Nothing is broken.
    NoBreak,
    /// A break child was met before the overflow: already broken.
    AlreadyBroken,
    /// A new break goes right after this fragment.
    InsertAfter(NodeId),
}

/// `a - b`, clamped to the range of `i32`.
pub open spec fn sat_sub(a: i32, b: i32) -> i32 {
    if a - b > i32::MAX {
        i32::MAX
    } else if a - b < i32::MIN {
        i32::MIN
    } else {
        (a - b) as i32
    }
}

fn saturating_sub(a: i32, b: i32) -> (r: i32)
    ensures
        r == sat_sub(a, b),
{
    let s: i64 = a as i64 - b as i64;
    if s > i32::MAX as i64 {
        i32::MAX
    } else if s < i32::MIN as i64 {
        i32::MIN
    } else {
        s as i32
    }
}

/// The overflow break of `f` within `max`: nothing when its box fits or it
/// cannot be fragmented; otherwise the scan of its children.
pub open spec fn plan(t: FragmentTree, f: NodeId, max: i32, fuel: nat) -> BreakPlan
    decreases fuel, 0nat,
{
    if fuel == 0 {
        BreakPlan::NoBreak
    } else if t.box_of(f).content.width <= max || !t.fragmentable(f) {
        BreakPlan::NoBreak
    } else {
        scan(t, t.tree.children(f.0 as int), 0, zero_box(), max, (fuel - 1) as nat)
    }
}

/// Scans `cs` from position `i`, `acc` being the combined box of the
/// children before it: a break child ends the scan; the first child that
/// makes the running width exceed `max` is broken into when fragmentable
/// (within what is left of `max`), else a break goes before it when it has a
/// previous sibling, or after it when it has a next one.
pub open spec fn scan(t: FragmentTree, cs: Seq<NodeId>, i: int, acc: BoxMetrics, max: i32, fuel: nat) -> BreakPlan
    decreases fuel, cs.len() - i + 1,
{
    if i < 0 || i >= cs.len() {
        BreakPlan::NoBreak
    } else if t.kind_of(cs[i]) == FragmentKind::Break {
        BreakPlan::AlreadyBroken
    } else if spec_lay(acc, t.box_of(cs[i])).content.width > max {
        if t.fragmentable(cs[i]) {
            plan(t, cs[i], sat_sub(max, acc.content.width), fuel)
        } else if i > 0 {
            BreakPlan::InsertAfter(cs[i - 1])
        } else if i + 1 < cs.len() {
            BreakPlan::InsertAfter(cs[i])
        } else {
            scan(t, cs, i + 1, spec_lay(acc, t.box_of(cs[i])), max, fuel)
        }
    } else {
        scan(t, cs, i + 1, spec_lay(acc, t.box_of(cs[i])), max, fuel)
    }
}

/// Breaks a fragment whose width exceeds `max_length` (an unforced break).
#[derive(Clone, Copy, PartialEq, Eq, Structural, Debug)]
pub struct OverflowBreak {
    pub max_length: i32,
}

impl OverflowBreak {
    /// First-fit line breaking: see `plan`. Returns whether the fragment is
    /// broken, either already or by the break inserted here.
    pub fn break_fragment(&self, ft: &mut FragmentTree, fragment: Fragment) -> (r: bool)
        requires
            old(ft).wf(),
            old(ft).valid(fragment),
            old(ft).len() < usize::MAX - 2,
        ensures
            final(ft).wf(),
            overflow_outcome(*old(ft), *final(ft), plan(*old(ft), fragment, self.max_length, old(ft).len() as nat), r),
    {
        let n = ft.tree.node_count();
        overflow_break(ft, fragment, self.max_length, n)
    }
}

/// How the tree after an overflow break relates to the tree before it.
pub open spec fn overflow_outcome(t0: FragmentTree, t1: FragmentTree, p: BreakPlan, r: bool) -> bool {
    match p {
        BreakPlan::NoBreak => !r && t1 == t0,
        BreakPlan::AlreadyBroken => r && t1 == t0,
        BreakPlan::InsertAfter(a) => {
            let brk = NodeId(t0.len() as usize);
            &&& r
            &&& t1.len() == t0.len() + 1
            &&& t1.kinds_view() == t0.kinds_view().push(FragmentKind::Break)
            &&& t1.boxes@ == t0.boxes@.push(zero_box())
            &&& t1.texts@ == t0.texts@.push(None)
            &&& t1.sources@ == t0.sources@.push(None)
            &&& t1.line_boxes@ == t0.line_boxes@.push(None)
            &&& forall|x: int|
                0 <= x < t0.len() && x != a.0 ==> #[trigger] t1.tree.edges@[x] == t0.tree.edges@[x]
            &&& t1.tree.edges@[a.0 as int] == (TreeEdges { sibling: Some(brk), ..t0.tree.edges@[a.0 as int] })
            &&& t1.tree.edges@[brk.0 as int] == (TreeEdges {
                parent: t0.tree.par(a.0 as int),
                sibling: t0.tree.sib(a.0 as int),
                child: None,
            })
            &&& t1.tree.succ@ == relink(
                t0.tree.succ@.push(t0.tree.succ@[a.0 as int]),
                a,
                seq![brk] + t0.tree.succ@[a.0 as int],
            )
            &&& t1.tree.chain(a.0 as int) == seq![a, brk] + t0.tree.succs(a.0 as int)
        },
    }
}

fn overflow_break(ft: &mut FragmentTree, f: Fragment, max: i32, fuel: usize) -> (r: bool)
    requires
        old(ft).wf(),
        old(ft).valid(f),
        old(ft).len() < usize::MAX - 2,
    ensures
        final(ft).wf(),
        overflow_outcome(*old(ft), *final(ft), plan(*old(ft), f, max, fuel as nat), r),
    decreases fuel, 0nat,
{
    if fuel == 0 {
        return false;
    }
    if ft.boxes[f.0].content.width <= max || !ft.is_fragmentable(f) {
        return false;
    }
    let v = ft.tree.iter_children(f);
    proof {
        ft.tree.lemma_children_valid_pub(f.0 as int);
    }
    scan_children(ft, &v, max, fuel - 1)
}

fn scan_children(ft: &mut FragmentTree, v: &Vec<NodeId>, max: i32, fuel: usize) -> (r: bool)
    requires
        old(ft).wf(),
        old(ft).len() < usize::MAX - 2,
        forall|k: int| 0 <= k < v@.len() ==> old(ft).valid(#[trigger] v@[k]),
    ensures
        final(ft).wf(),
        overflow_outcome(*old(ft), *final(ft), scan(*old(ft), v@, 0, zero_box(), max, fuel as nat), r),
    decreases fuel, v@.len() + 1,
{
    let ghost t0: FragmentTree = *ft;
    assert(t0 == *old(ft));
    let mut acc = BoxMetrics::zero();
    let mut i: usize = 0;
    while i < v.len()
        invariant
            *ft == t0,
            t0 == *old(ft),
            t0.wf(),
            t0.len() < usize::MAX - 2,
            forall|k: int| 0 <= k < v@.len() ==> t0.valid(#[trigger] v@[k]),
            i <= v.len(),
            scan(t0, v@, 0, zero_box(), max, fuel as nat) == scan(t0, v@, i as int, acc, max, fuel as nat),
        decreases v.len() - i,
    {
        let c = v[i];
        if ft.kind(c) == FragmentKind::Break {
            assert(scan(t0, v@, i as int, acc, max, fuel as nat) == BreakPlan::AlreadyBroken);
            return true;
        }
        let next = lay(acc, ft.boxes[c.0]);
        if next.content.width > max {
            if ft.is_fragmentable(c) {
                let budget = saturating_sub(max, acc.content.width);
                assert(scan(t0, v@, i as int, acc, max, fuel as nat) == plan(t0, c, budget, fuel as nat));
                return overflow_break(ft, c, budget, fuel);
            }
            let at: Option<NodeId> = if i > 0 {
                Some(v[i - 1])
            } else if i + 1 < v.len() {
                Some(c)
            } else {
                None
            };
            match at {
                Some(a) => {
                    assert(scan(t0, v@, i as int, acc, max, fuel as nat) == BreakPlan::InsertAfter(a));
                    let brk = ft.insert_break();
                    let ghost mid: FragmentTree = *ft;
                    ft.tree.insert_after(a, brk);
                    proof {
                        assert(mid.tree.succ@[a.0 as int] == t0.tree.succ@[a.0 as int]);
                        assert(mid.tree.succ@.update(brk.0 as int, mid.tree.succ@[a.0 as int]) =~= t0.tree.succ@.push(
                            t0.tree.succ@[a.0 as int],
                        ));
                        assert(ft.tree.chain(a.0 as int) == seq![a, brk] + t0.tree.succs(a.0 as int));
                        assert(ft.boxes@ =~= t0.boxes@.push(zero_box()));
                        assert(ft.texts@ =~= t0.texts@.push(None));
                    }
                    return true;
                },
                None => {},
            }
        }
        acc = next;
        i = i + 1;
    }
    false
}

/// The position of the first break fragment among `cs`, or `cs.len()`.
pub open spec fn first_break(t: FragmentTree, cs: Seq<NodeId>) -> int
    decreases cs.len(),
{
    if cs.len() == 0 {
        0
    } else if t.kind_of(cs[0]) == FragmentKind::Break {
        0
    } else {
        1 + first_break(t, cs.drop_first())
    }
}

proof fn lemma_first_break(t: FragmentTree, cs: Seq<NodeId>)
    ensures
        0 <= first_break(t, cs) <= cs.len(),
        forall|j: int| 0 <= j < first_break(t, cs) ==> t.kind_of(#[trigger] cs[j]) != FragmentKind::Break,
        first_break(t, cs) < cs.len() ==> t.kind_of(cs[first_break(t, cs)]) == FragmentKind::Break,
    decreases cs.len(),
{
    if cs.len() > 0 && t.kind_of(cs[0]) != FragmentKind::Break {
        lemma_first_break(t, cs.drop_first());
        assert forall|j: int| 0 <= j < first_break(t, cs) implies t.kind_of(#[trigger] cs[j]) != FragmentKind::Break by {
            if j > 0 {
                assert(cs[j] == cs.drop_first()[j - 1]);
            }
        }
    }
}

/// The number of break fragments among `cs`.
pub open spec fn count_breaks(t: FragmentTree, cs: Seq<NodeId>) -> nat
    decreases cs.len(),
{
    if cs.len() == 0 {
        0
    } else {
        count_breaks(t, cs.drop_last()) + if t.kind_of(cs.last()) == FragmentKind::Break {
            1nat
        } else {
            0nat
        }
    }
}

proof fn lemma_count_breaks_bound(t: FragmentTree, cs: Seq<NodeId>)
    ensures
        count_breaks(t, cs) <= cs.len(),
    decreases cs.len(),
{
    if cs.len() > 0 {
        lemma_count_breaks_bound(t, cs.drop_last());
    }
}

/// The clone that holds the `j`-th cluster of `node`'s children: the
/// clones are made in cluster order, after the fragments of `t0`.
pub open spec fn holder(t0: FragmentTree, j: int) -> NodeId {
    NodeId((t0.len() + j) as usize)
}

/// The children of `cs` that are not breaks and have exactly `j` breaks
/// before them, in order: the `j`-th cluster.
pub open spec fn cluster(t: FragmentTree, cs: Seq<NodeId>, j: int) -> Seq<NodeId>
    decreases cs.len(),
{
    if cs.len() == 0 {
        Seq::empty()
    } else if t.kind_of(cs.last()) != FragmentKind::Break && count_breaks(t, cs.drop_last()) == j {
        cluster(t, cs.drop_last(), j).push(cs.last())
    } else {
        cluster(t, cs.drop_last(), j)
    }
}

proof fn lemma_cluster_members(t: FragmentTree, cs: Seq<NodeId>, j: int)
    ensures
        forall|w: int|
            0 <= w < cluster(t, cs, j).len() ==> cs.contains(#[trigger] cluster(t, cs, j)[w]) && t.kind_of(
                cluster(t, cs, j)[w],
            ) != FragmentKind::Break,
        j > count_breaks(t, cs) ==> cluster(t, cs, j).len() == 0,
    decreases cs.len(),
{
    if cs.len() > 0 {
        let rest = cs.drop_last();
        lemma_cluster_members(t, rest, j);
        lemma_count_breaks_bound(t, rest);
        assert forall|w: int| 0 <= w < cluster(t, cs, j).len() implies cs.contains(#[trigger] cluster(t, cs, j)[w])
            && t.kind_of(cluster(t, cs, j)[w]) != FragmentKind::Break by {
            let e = cluster(t, cs, j)[w];
            if w < cluster(t, rest, j).len() {
                assert(e == cluster(t, rest, j)[w]);
                let v = choose|v: int| 0 <= v < rest.len() && rest[v] == e;
                assert(cs[v] == e);
            } else {
                assert(e == cs.last());
                assert(cs[cs.len() - 1] == e);
            }
        }
    }
}

/// Where the `k`-th child `cs[k]` of the node is after fragmentation: a
/// break sits between the clones of the clusters before and after it,
/// with the node's parent; a child that is not a break is a child of the
/// clone of its cluster.
pub open spec fn reified(t0: FragmentTree, t1: FragmentTree, node: NodeId, cs: Seq<NodeId>, k: int) -> bool {
    let j = count_breaks(t0, cs.take(k)) as int;
    if t0.kind_of(cs[k]) == FragmentKind::Break {
        &&& t1.tree.sib(holder(t0, j).0 as int) == Some(cs[k])
        &&& t1.tree.sib(cs[k].0 as int) == Some(holder(t0, j + 1))
        &&& t1.tree.par(cs[k].0 as int) == t0.tree.par(node.0 as int)
    } else {
        t1.tree.par(cs[k].0 as int) == Some(holder(t0, j))
    }
}

/// Reifies forced breaks. When `node` has break children, its children are
/// split into clusters at the breaks, and each cluster goes, in order, under
/// a new clone of `node`. The clones follow `node` as its siblings, one
/// after the other, separated by the original breaks; `node`'s former
/// following siblings come after the last clone, and `node` keeps no
/// children. Returns whether `node` had a break child.
#[verifier::spinoff_prover]
#[verifier::rlimit(100)]
pub fn fragment(ft: &mut FragmentTree, node: Fragment) -> (r: bool)
    requires
        old(ft).wf(),
        old(ft).valid(node),
        !old(ft).tree.children(node.0 as int).contains(node),
        old(ft).len() + old(ft).tree.children(node.0 as int).len() < usize::MAX - 3,
    ensures
        final(ft).wf(),
        r == exists|k: int|
            0 <= k < old(ft).tree.children(node.0 as int).len() && old(ft).kind_of(
                #[trigger] old(ft).tree.children(node.0 as int)[k],
            ) == FragmentKind::Break,
        !r ==> *final(ft) == *old(ft),
        r ==> {
            let cs = old(ft).tree.children(node.0 as int);
            let m = count_breaks(*old(ft), cs) as int;
            &&& final(ft).len() == old(ft).len() + m + 1
            &&& final(ft).tree.children(node.0 as int) == Seq::<NodeId>::empty()
            &&& final(ft).tree.sib(node.0 as int) == Some(holder(*old(ft), 0))
            &&& final(ft).tree.sib(holder(*old(ft), m).0 as int) == old(ft).tree.sib(node.0 as int)
            &&& forall|j: int|
                0 <= j <= m ==> #[trigger] final(ft).tree.children(holder(*old(ft), j).0 as int) == cluster(
                    *old(ft),
                    cs,
                    j,
                ) && final(ft).tree.par(holder(*old(ft), j).0 as int) == old(ft).tree.par(node.0 as int)
            &&& forall|k: int| 0 <= k < cs.len() ==> reified(*old(ft), *final(ft), node, cs, k)
        },
        forall|x: int| old(ft).len() <= x < final(ft).len() ==> #[trigger] final(ft).kinds_view()[x] == old(ft).kind_of(node),
        forall|x: int| 0 <= x < old(ft).len() ==> #[trigger] final(ft).kinds_view()[x] == old(ft).kinds_view()[x],
{
    if !ft.is_breakable(node) {
        return false;
    }
    let ghost t0: FragmentTree = *ft;
    let ghost o = t0.tree.sib(node.0 as int);
    let ghost pn = t0.tree.par(node.0 as int);
    let kids = ft.tree.detach_children(node);
    let ghost t1: FragmentTree = *ft;
    proof {
        lemma_count_breaks_bound(t0, kids@);
        assert(t1.tree.sib(node.0 as int) == o);
        assert(t1.tree.par(node.0 as int) == pn);
    }
    let first = ft.clone_fragment(node);
    let ghost t2: FragmentTree = *ft;
    proof {
        assert(t2.tree.sib(node.0 as int) == o);
        assert(t2.tree.par(node.0 as int) == pn);
        assert(t2.tree.children(node.0 as int) == Seq::<NodeId>::empty());
    }
    ft.tree.insert_after(node, first);
    let mut target = first;
    let mut i: usize = 0;
    assert(kids@.take(0) =~= Seq::<NodeId>::empty());
    proof {
        assert(count_breaks(t0, kids@.take(0)) == 0);
        assert(ft.tree.children(first.0 as int) =~= cluster(t0, kids@.take(0), 0));
        assert(ft.tree.children(node.0 as int) =~= Seq::<NodeId>::empty());
        assert(first == holder(t0, 0));
    }
    while i < kids.len()
        invariant
            ft.wf(),
            t0.wf(),
            t0 == *old(ft),
            t0.valid(node),
            pn == t0.tree.par(node.0 as int),
            o == t0.tree.sib(node.0 as int),
            kids@ == t0.tree.children(node.0 as int),
            kids@.no_duplicates(),
            !kids@.contains(node),
            forall|k: int| 0 <= k < kids@.len() ==> t0.valid(#[trigger] kids@[k]),
            forall|k: int| i <= k < kids@.len() ==> ft.tree.detached(#[trigger] kids@[k]),
            i <= kids.len(),
            ft.len() == t0.len() + 1 + count_breaks(t0, kids@.take(i as int)),
            count_breaks(t0, kids@) <= kids@.len(),
            t0.len() + kids@.len() < usize::MAX - 3,
            target == holder(t0, count_breaks(t0, kids@.take(i as int)) as int),
            forall|x: int| t0.len() <= x < ft.len() ==> #[trigger] ft.kinds_view()[x] == t0.kind_of(node),
            forall|x: int| 0 <= x < t0.len() ==> #[trigger] ft.kinds_view()[x] == t0.kinds_view()[x],
            ft.tree.children(node.0 as int) == Seq::<NodeId>::empty(),
            ft.tree.sib(node.0 as int) == Some(holder(t0, 0)),
            ft.tree.sib(target.0 as int) == o,
            forall|j: int|
                0 <= j <= count_breaks(t0, kids@.take(i as int)) ==> #[trigger] ft.tree.children(holder(t0, j).0 as int)
                    == cluster(t0, kids@.take(i as int), j) && ft.tree.par(holder(t0, j).0 as int) == pn,
            forall|k: int| 0 <= k < i ==> reified(t0, *ft, node, kids@, k),
        decreases kids.len() - i,
    {
        let k = kids[i];
        let ghost before: FragmentTree = *ft;
        let ghost cb = count_breaks(t0, kids@.take(i as int)) as int;
        proof {
            assert(kids@.take(i + 1).drop_last() =~= kids@.take(i as int));
            assert(kids@.take(i + 1).last() == k);
            lemma_count_breaks_prefix(t0, kids@, i as int);
            assert(k != node);
            assert(!kids@.take(i as int).contains(k)) by {
                if kids@.take(i as int).contains(k) {
                    let w = choose|w: int| 0 <= w < i && kids@.take(i as int)[w] == k;
                    assert(kids@[w] == kids@[i as int]);
                }
            }
            assert forall|j: int| 0 <= j <= cb implies !before.tree.children(holder(t0, j).0 as int).contains(k)
                && forall|h: NodeId| before.tree.children(holder(t0, j).0 as int).contains(h) ==> h.0 < t0.len() by {
                lemma_cluster_members(t0, kids@.take(i as int), j);
                let c = before.tree.children(holder(t0, j).0 as int);
                assert(c == cluster(t0, kids@.take(i as int), j));
                if c.contains(k) {
                    let w = choose|w: int| 0 <= w < c.len() && c[w] == k;
                    assert(kids@.take(i as int).contains(c[w]));
                }
                assert forall|h: NodeId| c.contains(h) implies h.0 < t0.len() by {
                    let w = choose|w: int| 0 <= w < c.len() && c[w] == h;
                    assert(kids@.take(i as int).contains(c[w]));
                    let v = choose|v: int| 0 <= v < i && kids@.take(i as int)[v] == h;
                    assert(t0.valid(kids@[v]));
                }
            }
        }
        if ft.kind(k) == FragmentKind::Break {
            let clone = ft.clone_fragment(node);
            let ghost mid: FragmentTree = *ft;
            proof {
                assert forall|j: int| i <= j < kids@.len() implies mid.tree.detached(#[trigger] kids@[j]) by {
                    assert(before.tree.detached(kids@[j]));
                    assert forall|x: int| 0 <= x < mid.len() implies mid.tree.sib(x) != Some(kids@[j]) && mid.tree.kid(x) != Some(kids@[j]) by {
                        if x < before.len() {
                            assert(mid.tree.edges@[x] == before.tree.edges@[x]);
                        }
                    }
                }
                assert forall|x: int| 0 <= x < before.len() implies #[trigger] mid.tree.children(x) == before.tree.children(x) by {
                    assert(mid.tree.kid(x) == before.tree.kid(x));
                    if let Some(h) = before.tree.kid(x) {
                        assert(mid.tree.succ@[h.0 as int] == before.tree.succ@[h.0 as int]);
                    }
                }
            }
            ft.tree.insert_after(target, k);
            let ghost mid2: FragmentTree = *ft;
            ft.tree.insert_after(k, clone);
            proof {
                assert(clone == holder(t0, cb + 1));
                assert(node != target);
                assert(ft.tree.sib(node.0 as int) == before.tree.sib(node.0 as int));
                assert forall|x: int| 0 <= x < before.len() && x != target.0 && x != k.0 implies #[trigger] ft.tree.edges@[x]
                    == before.tree.edges@[x] by {
                    assert(mid.tree.edges@[x] == before.tree.edges@[x]);
                }
                assert forall|j: int| 0 <= j <= cb + 1 implies #[trigger] ft.tree.children(holder(t0, j).0 as int)
                    == cluster(t0, kids@.take(i + 1), j) && ft.tree.par(holder(t0, j).0 as int) == pn by {
                    if j <= cb {
                        let x = holder(t0, j).0 as int;
                        assert(!mid.tree.children(x).contains(target)) by {
                            if mid.tree.children(x).contains(target) {
                                assert(before.tree.children(x).contains(target));
                            }
                        }
                        assert(!mid.tree.children(x).contains(clone)) by {
                            if mid.tree.children(x).contains(clone) {
                                assert(before.tree.children(x).contains(clone));
                            }
                        }
                        Tree::lemma_insert_after_children(&mid.tree, &mid2.tree, target, k, x);
                        Tree::lemma_insert_after_children(&mid2.tree, &ft.tree, k, clone, x);
                        assert(ft.tree.par(x) == before.tree.par(x)) by {
                            if x != target.0 {
                                assert(ft.tree.edges@[x] == before.tree.edges@[x]);
                            }
                        }
                    } else {
                        lemma_cluster_members(t0, kids@.take(i as int), j);
                        assert(cluster(t0, kids@.take(i + 1), j) == cluster(t0, kids@.take(i as int), j));
                        assert(ft.tree.kid(clone.0 as int) is None);
                        assert(ft.tree.children(clone.0 as int) =~= cluster(t0, kids@.take(i + 1), j));
                    }
                }
                assert(ft.tree.children(node.0 as int) == before.tree.children(node.0 as int)) by {
                    assert(ft.tree.kid(node.0 as int) == before.tree.kid(node.0 as int));
                }
                assert forall|kk: int| 0 <= kk < i + 1 implies reified(t0, *ft, node, kids@, kk) by {
                    if kk < i {
                        assert(reified(t0, before, node, kids@, kk));
                        let j2 = count_breaks(t0, kids@.take(kk)) as int;
                        lemma_count_breaks_mono(t0, kids@, kk, i as int);
                        let c2 = kids@[kk];
                        assert(c2 != k);
                        assert(c2.0 < t0.len());
                        if t0.kind_of(c2) == FragmentKind::Break {
                            lemma_count_breaks_prefix(t0, kids@, kk);
                            lemma_count_breaks_mono(t0, kids@, kk + 1, i as int);
                            assert(holder(t0, j2) != target);
                        }
                    } else {
                        assert(kids@[kk] == k);
                    }
                }
                assert forall|j: int| i + 1 <= j < kids@.len() implies ft.tree.detached(#[trigger] kids@[j]) by {
                    assert(mid.tree.detached(kids@[j]));
                    assert(kids@[j] != k);
                }
            }
            target = clone;
        } else {
            ft.tree.attach_child(target, k);
            proof {
                assert forall|j: int| 0 <= j <= cb implies #[trigger] ft.tree.children(holder(t0, j).0 as int) == cluster(
                    t0,
                    kids@.take(i + 1),
                    j,
                ) && ft.tree.par(holder(t0, j).0 as int) == pn by {
                    let x = holder(t0, j).0 as int;
                    assert(x != k.0);
                    if j == cb {
                        assert(ft.tree.children(x) =~= cluster(t0, kids@.take(i + 1), j));
                    }
                }
                assert(ft.tree.children(node.0 as int) == before.tree.children(node.0 as int));
                let tc = before.tree.children(target.0 as int);
                lemma_cluster_members(t0, kids@.take(i as int), cb);
                assert(!tc.contains(node)) by {
                    if tc.contains(node) {
                        let w = choose|w: int| 0 <= w < tc.len() && tc[w] == node;
                        assert(kids@.take(i as int).contains(tc[w]));
                        let v = choose|v: int| 0 <= v < i && kids@.take(i as int)[v] == node;
                        assert(kids@[v] == node);
                    }
                }
                assert(ft.tree.sib(node.0 as int) == before.tree.sib(node.0 as int));
                assert forall|kk: int| 0 <= kk < i + 1 implies reified(t0, *ft, node, kids@, kk) by {
                    if kk < i {
                        assert(reified(t0, before, node, kids@, kk));
                        let j2 = count_breaks(t0, kids@.take(kk)) as int;
                        lemma_count_breaks_mono(t0, kids@, kk, i as int);
                        let c2 = kids@[kk];
                        assert(c2 != k);
                        if t0.kind_of(c2) == FragmentKind::Break {
                            lemma_count_breaks_prefix(t0, kids@, kk);
                            lemma_count_breaks_mono(t0, kids@, kk + 1, i as int);
                            let h = holder(t0, j2);
                            assert(!tc.contains(h));
                            lemma_cluster_members(t0, kids@.take(i as int), cb);
                            assert(!tc.contains(c2)) by {
                                if tc.contains(c2) {
                                    let w = choose|w: int| 0 <= w < tc.len() && tc[w] == c2;
                                    assert(t0.kind_of(tc[w]) != FragmentKind::Break);
                                }
                            }
                        }
                    } else {
                        assert(kids@[kk] == k);
                    }
                }
                assert forall|j: int| i + 1 <= j < kids@.len() implies ft.tree.detached(#[trigger] kids@[j]) by {
                    assert(before.tree.detached(kids@[j]));
                    assert(kids@[j] != k);
                }
                assert(!tc.contains(target));
            }
        }
        i = i + 1;
    }
    proof {
        assert(kids@.take(kids@.len() as int) =~= kids@);
    }
    true
}

proof fn lemma_count_breaks_mono(t: FragmentTree, cs: Seq<NodeId>, a: int, b: int)
    requires
        0 <= a <= b <= cs.len(),
    ensures
        count_breaks(t, cs.take(a)) <= count_breaks(t, cs.take(b)),
    decreases b - a,
{
    if a < b {
        lemma_count_breaks_prefix(t, cs, b - 1);
        lemma_count_breaks_mono(t, cs, a, b - 1);
    }
}

proof fn lemma_count_breaks_prefix(t: FragmentTree, cs: Seq<NodeId>, i: int)
    requires
        0 <= i < cs.len(),
    ensures
        count_breaks(t, cs.take(i + 1)) == count_breaks(t, cs.take(i)) + if t.kind_of(cs[i]) == FragmentKind::Break {
            1nat
        } else {
            0nat
        },
        count_breaks(t, cs.take(i + 1)) <= i + 1,
{
    assert(cs.take(i + 1).drop_last() =~= cs.take(i));
    lemma_count_breaks_bound(t, cs.take(i + 1));
}

} // verus!
