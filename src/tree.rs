//! A generic n-ary tree over node identifiers, stored as
//! parent / first-child / next-sibling links.
use vstd::prelude::*;

verus! {

/// Opaque handle of a node; handles are dense indices that are never reused.
#[derive(Clone, Copy, PartialEq, Eq, Structural, Debug, Hash)]
pub struct NodeId(pub usize);

/// The links of one node.
#[derive(Clone, Copy, PartialEq, Eq, Structural, Debug)]
pub struct TreeEdges {
    pub parent: Option<NodeId>,
    pub sibling: Option<NodeId>,
    pub child: Option<NodeId>,
}

impl TreeEdges {
    pub fn new() -> (r: TreeEdges)
        ensures
            r.parent is None,
            r.sibling is None,
            r.child is None,
    {
        TreeEdges { parent: None, sibling: None, child: None }
    }
}

/// Result of splitting a sibling chain: `left` keeps the head part, `right`
/// starts the detached remainder.
#[derive(Clone, Copy, PartialEq, Eq, Structural, Debug)]
pub struct Split {
    pub left: NodeId,
    pub right: NodeId,
}

/// Where a split happens relative to the matching child.
#[derive(Clone, Copy, PartialEq, Eq, Structural, Debug)]
pub enum SplitMode {
    Before,
    After,
}

pub open spec fn link_ok(o: Option<NodeId>, n: int) -> bool {
    match o {
        None => true,
        Some(j) => j.0 < n,
    }
}

/// The prefix of `s` up to and including the first occurrence of `a`.
pub open spec fn upto(s: Seq<NodeId>, a: NodeId) -> Seq<NodeId>
    decreases s.len(),
{
    if s.len() == 0 {
        s
    } else if s[0] == a {
        seq![a]
    } else {
        seq![s[0]] + upto(s.drop_first(), a)
    }
}

/// The successor chains after the sibling link of `a` has been replaced so
/// that the chain after `a` is `tail`.
pub open spec fn relink(s: Seq<Seq<NodeId>>, a: NodeId, tail: Seq<NodeId>) -> Seq<Seq<NodeId>> {
    Seq::new(
        s.len(),
        |x: int|
            if x == a.0 {
                tail
            } else if s[x].contains(a) {
                upto(s[x], a) + tail
            } else {
                s[x]
            },
    )
}

/// The chain that follows a node whose sibling link is `o`.
pub open spec fn tail_of(s: Seq<Seq<NodeId>>, o: Option<NodeId>) -> Seq<NodeId> {
    match o {
        None => Seq::empty(),
        Some(j) => seq![j] + s[j.0 as int],
    }
}

/// A tree: the links of every node, and (as a ghost model) the finite chain
/// of siblings that follows each node.
pub struct Tree {
    pub root: Option<NodeId>,
    pub edges: Vec<TreeEdges>,
    pub succ: Ghost<Seq<Seq<NodeId>>>,
}

impl Tree {
    pub open spec fn len(&self) -> int {
        self.edges@.len() as int
    }

    pub open spec fn sib(&self, i: int) -> Option<NodeId> {
        self.edges@[i].sibling
    }

    pub open spec fn kid(&self, i: int) -> Option<NodeId> {
        self.edges@[i].child
    }

    pub open spec fn par(&self, i: int) -> Option<NodeId> {
        self.edges@[i].parent
    }

    /// The nodes that follow `i` in its sibling chain.
    pub open spec fn succs(&self, i: int) -> Seq<NodeId> {
        self.succ@[i]
    }

    /// `i` followed by its successors.
    pub open spec fn chain(&self, i: int) -> Seq<NodeId> {
        seq![NodeId(i as usize)] + self.succ@[i]
    }

    /// The children of `p`, in order.
    pub open spec fn children(&self, p: int) -> Seq<NodeId> {
        match self.kid(p) {
            None => Seq::empty(),
            Some(h) => self.chain(h.0 as int),
        }
    }

    pub open spec fn valid(&self, n: NodeId) -> bool {
        n.0 < self.len()
    }

    /// `j` has no next sibling and is the target of no link.
    pub open spec fn detached(&self, j: NodeId) -> bool {
        self.sib(j.0 as int) is None && self.unlinked(j)
    }

    /// `j` is the target of no link.
    pub open spec fn unlinked(&self, j: NodeId) -> bool {
        forall|x: int| 0 <= x < self.len() ==> self.sib(x) != Some(j) && self.kid(x) != Some(j)
    }

    pub open spec fn shape(&self) -> bool {
        &&& self.len() < usize::MAX
        &&& self.succ@.len() == self.len()
        &&& link_ok(self.root, self.len())
        &&& forall|i: int|
            #![trigger self.edges@[i]]
            0 <= i < self.len() ==> {
                &&& link_ok(self.sib(i), self.len())
                &&& link_ok(self.kid(i), self.len())
                &&& link_ok(self.par(i), self.len())
            }
    }

    /// The ghost chains agree with the sibling links, are acyclic, and hold
    /// valid nodes only.
    #[verifier::opaque]
    pub open spec fn chains_ok(&self) -> bool {
        &&& forall|i: int|
            0 <= i < self.len() ==> #[trigger] self.succ@[i] == tail_of(self.succ@, self.sib(i))
        &&& forall|i: int| 0 <= i < self.len() ==> !(#[trigger] self.succ@[i]).contains(NodeId(i as usize))
        &&& forall|i: int, k: int|
            0 <= i < self.len() && 0 <= k < self.succ@[i].len() ==> (#[trigger] self.succ@[i][k]).0 < self.len()
    }

    /// Every node is the target of at most one link.
    #[verifier::opaque]
    pub open spec fn unique(&self) -> bool {
        &&& forall|x: int, y: int|
            0 <= x < self.len() && 0 <= y < self.len() && #[trigger] self.sib(x) == #[trigger] self.sib(y)
                && self.sib(x) is Some ==> x == y
        &&& forall|x: int, y: int|
            0 <= x < self.len() && 0 <= y < self.len() && #[trigger] self.kid(x) == #[trigger] self.kid(y)
                && self.kid(x) is Some ==> x == y
        &&& forall|x: int, y: int|
            0 <= x < self.len() && 0 <= y < self.len() && #[trigger] self.sib(x) == #[trigger] self.kid(y)
                ==> self.sib(x) is None
    }

    pub open spec fn chained(&self) -> bool {
        self.shape() && self.chains_ok()
    }

    pub open spec fn wf(&self) -> bool {
        &&& self.shape()
        &&& self.chains_ok()
        &&& self.unique()
    }
}


/// Every element of `upto(s, a)` is an element of `s`; if `a` occurs in `s`,
/// the prefix ends with `a` and is followed in `s` by `s` after that point.
pub proof fn lemma_upto(s: Seq<NodeId>, a: NodeId)
    ensures
        forall|k: int| 0 <= k < upto(s, a).len() ==> s.contains(#[trigger] upto(s, a)[k]),
        upto(s, a).len() <= s.len(),
        s.contains(a) ==> upto(s, a).len() >= 1 && upto(s, a) == s.take(upto(s, a).len() as int)
            && upto(s, a).last() == a,
    decreases s.len(),
{
    if s.len() == 0 {
    } else if s[0] == a {
        assert(s.take(1) =~= seq![a]);
    } else {
        let t = s.drop_first();
        lemma_upto(t, a);
        assert forall|k: int| 0 <= k < upto(s, a).len() implies s.contains(#[trigger] upto(s, a)[k]) by {
            if k == 0 {
                assert(s[0] == upto(s, a)[0]);
            } else {
                assert(upto(s, a)[k] == upto(t, a)[k - 1]);
                let w = choose|w: int| 0 <= w < t.len() && t[w] == upto(t, a)[k - 1];
                assert(s[w + 1] == t[w]);
            }
        }
        if s.contains(a) {
            let w = choose|w: int| 0 <= w < s.len() && s[w] == a;
            assert(t[w - 1] == a);
            assert(upto(s, a) =~= s.take(upto(s, a).len() as int));
        }
    }
}

impl Tree {
    /// The chain after the `k`-th successor of `i` is that successor's own chain.
    pub proof fn lemma_succ_skip(&self, i: int, k: int)
        requires
            self.chained(),
            0 <= i < self.len(),
            0 <= k < self.succ@[i].len(),
        ensures
            self.succ@[i].skip(k + 1) == self.succ@[self.succ@[i][k].0 as int],
        decreases k,
    {
        reveal(Tree::chains_ok);
        let j = self.sib(i).unwrap();
        assert(self.succ@[i] == tail_of(self.succ@, self.sib(i)));
        if k == 0 {
            assert(self.succ@[i].skip(1) =~= self.succ@[j.0 as int]);
        } else {
            assert(self.succ@[i][k] == self.succ@[j.0 as int][k - 1]);
            self.lemma_succ_skip(j.0 as int, k - 1);
            assert(self.succ@[i].skip(k + 1) =~= self.succ@[j.0 as int].skip(k));
        }
    }

    /// Successors of successors are successors.
    pub proof fn lemma_succ_trans(&self, i: int, y: NodeId, z: NodeId)
        requires
            self.chained(),
            0 <= i < self.len(),
            self.succ@[i].contains(y),
            self.succ@[y.0 as int].contains(z),
        ensures
            self.succ@[i].contains(z),
    {
        let k = choose|k: int| 0 <= k < self.succ@[i].len() && self.succ@[i][k] == y;
        self.lemma_succ_skip(i, k);
        let w = choose|w: int| 0 <= w < self.succ@[y.0 as int].len() && self.succ@[y.0 as int][w] == z;
        assert(self.succ@[i][k + 1 + w] == z);
    }

    /// One step of a chain: the successors of `i` are its next sibling
    /// followed by that sibling's successors; they are valid and exclude `i`.
    pub proof fn lemma_succ_step(&self, i: int)
        requires
            self.chained(),
            0 <= i < self.len(),
        ensures
            self.succ@[i] == tail_of(self.succ@, self.sib(i)),
            !self.succ@[i].contains(NodeId(i as usize)),
            forall|k: int| 0 <= k < self.succ@[i].len() ==> (#[trigger] self.succ@[i][k]).0 < self.len(),
    {
        reveal(Tree::chains_ok);
    }

    /// Every successor of a node is the target of a sibling link.
    pub proof fn lemma_succ_linked(&self, i: int, k: int)
        requires
            self.chained(),
            0 <= i < self.len(),
            0 <= k < self.succ@[i].len(),
        ensures
            k == 0 ==> self.sib(i) == Some(self.succ@[i][k]),
            k > 0 ==> self.sib(self.succ@[i][k - 1].0 as int) == Some(self.succ@[i][k]),
    {
        reveal(Tree::chains_ok);
        assert(self.succ@[i] == tail_of(self.succ@, self.sib(i)));
        if k > 0 {
            self.lemma_succ_skip(i, k - 1);
            let y = self.succ@[i][k - 1].0 as int;
            assert(self.succ@[y] == tail_of(self.succ@, self.sib(y)));
            assert(self.succ@[i].skip(k)[0] == self.succ@[i][k]);
        }
    }

    /// A node that no link targets occurs in no chain.
    pub proof fn lemma_unlinked_not_in_succ(&self, j: NodeId)
        requires
            self.chained(),
            self.unlinked(j),
        ensures
            forall|i: int| 0 <= i < self.len() ==> !(#[trigger] self.succ@[i]).contains(j),
    {
        reveal(Tree::chains_ok);
        assert forall|i: int| 0 <= i < self.len() implies !(#[trigger] self.succ@[i]).contains(j) by {
            if self.succ@[i].contains(j) {
                let k = choose|k: int| 0 <= k < self.succ@[i].len() && self.succ@[i][k] == j;
                self.lemma_succ_linked(i, k);
                if k > 0 {
                    assert(0 <= self.succ@[i][k - 1].0 < self.len());
                }
            }
        }
    }

    /// Sibling chains hold no node twice.
    pub proof fn lemma_succ_distinct(&self, i: int)
        requires
            self.chained(),
            0 <= i < self.len(),
        ensures
            self.succ@[i].no_duplicates(),
            self.chain(i).no_duplicates(),
    {
        reveal(Tree::chains_ok);
        let s = self.succ@[i];
        assert forall|a: int, b: int| 0 <= a < s.len() && 0 <= b < s.len() && a != b implies s[a] != s[b] by {
            if s[a] == s[b] {
                let (lo, hi) = if a < b { (a, b) } else { (b, a) };
                self.lemma_succ_skip(i, lo);
                assert(s.skip(lo + 1)[hi - lo - 1] == s[hi]);
                let y = s[lo];
                assert(self.succ@[y.0 as int].contains(y));
            }
        }
        let c = self.chain(i);
        assert forall|a: int, b: int| 0 <= a < c.len() && 0 <= b < c.len() && a != b implies c[a] != c[b] by {
            if a > 0 && b > 0 {
                assert(c[a] == s[a - 1] && c[b] == s[b - 1]);
            } else if a == 0 {
                assert(c[b] == s[b - 1]);
            } else {
                assert(c[a] == s[a - 1]);
            }
        }
    }
}

/// Replacing the sibling link of `a` keeps the chains consistent, provided
/// that the new successor does not lead back to `a`.
pub proof fn lemma_relink(t: &Tree, u: &Tree, a: int)
    requires
        t.chained(),
        u.shape(),
        0 <= a < t.len(),
        u.len() == t.len(),
        forall|x: int| 0 <= x < t.len() && x != a ==> u.sib(x) == t.sib(x),
        match u.sib(a) {
            None => true,
            Some(b) => b.0 != a && !t.succ@[b.0 as int].contains(NodeId(a as usize)),
        },
        u.succ@ == relink(t.succ@, NodeId(a as usize), tail_of(t.succ@, u.sib(a))),
    ensures
        u.chains_ok(),
{
    reveal(Tree::chains_ok);
    let an = NodeId(a as usize);
    let tail = tail_of(t.succ@, u.sib(a));
    let n = t.len();
    assert forall|i: int, k: int| 0 <= i < n && 0 <= k < u.succ@[i].len() implies (#[trigger] u.succ@[i][k]).0 < n by {
        let v = u.succ@[i][k];
        if i == a {
            if k > 0 {
                assert(v == t.succ@[u.sib(a).unwrap().0 as int][k - 1]);
            }
        } else if t.succ@[i].contains(an) {
            lemma_upto(t.succ@[i], an);
            let p = upto(t.succ@[i], an);
            if k < p.len() {
                assert(t.succ@[i].contains(p[k]));
            } else if k > p.len() {
                assert(v == t.succ@[u.sib(a).unwrap().0 as int][k - p.len() - 1]);
            }
        }
    }
    assert forall|x: int| 0 <= x < n implies #[trigger] u.succ@[x] == tail_of(u.succ@, u.sib(x)) by {
        if x == a {
            if let Some(b) = u.sib(a) {
                assert(u.succ@[b.0 as int] == t.succ@[b.0 as int]);
            }
        } else if t.succ@[x].contains(an) {
            let j = t.sib(x).unwrap();
            let jj = j.0 as int;
            assert(t.succ@[x] == seq![j] + t.succ@[jj]);
            assert(t.succ@[x].drop_first() =~= t.succ@[jj]);
            if j == an {
                assert(u.succ@[x] =~= seq![j] + tail);
            } else {
                assert(t.succ@[jj].contains(an)) by {
                    let w = choose|w: int| 0 <= w < t.succ@[x].len() && t.succ@[x][w] == an;
                    assert(t.succ@[jj][w - 1] == an);
                }
                assert(u.succ@[jj] == upto(t.succ@[jj], an) + tail);
                assert(u.succ@[x] =~= seq![j] + u.succ@[jj]);
            }
        } else {
            if let Some(j) = t.sib(x) {
                let jj = j.0 as int;
                assert(t.succ@[x] == seq![j] + t.succ@[jj]);
                assert(t.succ@[x][0] == j);
                assert(j != an);
                if t.succ@[jj].contains(an) {
                    let w = choose|w: int| 0 <= w < t.succ@[jj].len() && t.succ@[jj][w] == an;
                    assert(t.succ@[x][w + 1] == an);
                }
                assert(u.succ@[jj] == t.succ@[jj]);
            }
        }
    }
    assert forall|x: int| 0 <= x < n implies !(#[trigger] u.succ@[x]).contains(NodeId(x as usize)) by {
        let xn = NodeId(x as usize);
        if x != a && t.succ@[x].contains(an) {
            lemma_upto(t.succ@[x], an);
            let p = upto(t.succ@[x], an);
            if p.contains(xn) {
                let k = choose|k: int| 0 <= k < p.len() && p[k] == xn;
                assert(t.succ@[x].contains(p[k]));
            }
            if let Some(b) = u.sib(a) {
                let bb = b.0 as int;
                if tail.contains(xn) && xn != b {
                    let k = choose|k: int| 0 <= k < tail.len() && tail[k] == xn;
                    assert(t.succ@[bb][k - 1] == xn);
                    t.lemma_succ_trans(bb, xn, an);
                }
                assert(u.succ@[x] == p + tail);
            } else {
                assert(u.succ@[x] =~= p + tail);
            }
        }
    }
}

impl Tree {
    /// An empty tree.
    pub fn new() -> (r: Tree)
        ensures
            r.wf(),
            r.len() == 0,
            r.root is None,
    {
        let t = Tree { root: None, edges: Vec::new(), succ: Ghost(Seq::empty()) };
        proof {
            reveal(Tree::unique);
            reveal(Tree::chains_ok);
        }
        t
    }

    /// Number of nodes.
    pub fn node_count(&self) -> (r: usize)
        ensures
            r == self.len(),
    {
        self.edges.len()
    }

    /// Adds a detached node with no links. The first node of a tree is its root.
    pub fn bind_edges(&mut self) -> (r: NodeId)
        requires
            old(self).wf(),
            old(self).len() < usize::MAX - 1,
        ensures
            final(self).wf(),
            r.0 == old(self).len(),
            final(self).len() == old(self).len() + 1,
            final(self).root == (if old(self).root is None { Some(r) } else { old(self).root }),
            forall|x: int| 0 <= x < old(self).len() ==> final(self).edges@[x] == old(self).edges@[x],
            final(self).edges@[r.0 as int] == (TreeEdges { parent: None, sibling: None, child: None }),
            forall|x: int| 0 <= x < old(self).len() ==> final(self).succ@[x] == old(self).succ@[x],
            final(self).succ@[r.0 as int] == Seq::<NodeId>::empty(),
            final(self).unlinked(r),
            final(self).detached(r),
            forall|d: NodeId| old(self).valid(d) && #[trigger] old(self).detached(d) ==> final(self).detached(d),
    {
        let id = NodeId(self.edges.len());
        self.edges.push(TreeEdges::new());
        self.succ = Ghost(self.succ@.push(Seq::empty()));
        if self.root.is_none() {
            self.root = Some(id);
        }
        proof {
            reveal(Tree::unique);
            reveal(Tree::chains_ok);
            assert forall|i: int| 0 <= i < self.len() implies #[trigger] self.succ@[i] == tail_of(self.succ@, self.sib(i)) by {
                if i < self.len() - 1 {
                    if let Some(j) = self.sib(i) {
                        assert(j.0 < self.len() - 1);
                    }
                }
            }
            assert forall|d: NodeId| old(self).valid(d) && #[trigger] old(self).detached(d) implies self.detached(d) by {
                assert forall|x: int| 0 <= x < self.len() implies self.sib(x) != Some(d) && self.kid(x) != Some(d) by {
                    if x < old(self).len() {
                        assert(self.edges@[x] == old(self).edges@[x]);
                    }
                }
            }
        }
        id
    }

    pub fn root(&self) -> (r: Option<NodeId>)
        ensures
            r == self.root,
    {
        self.root
    }

    pub fn parent(&self, node: NodeId) -> (r: Option<NodeId>)
        requires
            self.valid(node),
        ensures
            r == self.par(node.0 as int),
    {
        self.edges[node.0].parent
    }

    /// A node without children.
    pub fn is_leaf(&self, node: NodeId) -> (r: bool)
        requires
            self.valid(node),
        ensures
            r == (self.kid(node.0 as int) is None),
    {
        self.edges[node.0].child.is_none()
    }

    pub fn next_sibling(&self, node: NodeId) -> (r: Option<NodeId>)
        requires
            self.valid(node),
        ensures
            r == self.sib(node.0 as int),
    {
        self.edges[node.0].sibling
    }

    pub fn first_child(&self, parent: NodeId) -> (r: Option<NodeId>)
        requires
            self.valid(parent),
        ensures
            r == self.kid(parent.0 as int),
    {
        self.edges[parent.0].child
    }

    /// `from` followed by every node of its sibling chain.
    pub fn iter_siblings(&self, from: NodeId) -> (r: Vec<NodeId>)
        requires
            self.wf(),
            self.valid(from),
        ensures
            r@ == self.chain(from.0 as int),
    {
        let mut r: Vec<NodeId> = Vec::new();
        r.push(from);
        let mut cur = from;
        assert(r@ + self.succ@[cur.0 as int] =~= self.chain(from.0 as int));
        loop
            invariant
                self.wf(),
                self.valid(cur),
                r@ + self.succ@[cur.0 as int] == self.chain(from.0 as int),
            ensures
                r@ == self.chain(from.0 as int),
            decreases self.succ@[cur.0 as int].len(),
        {
            proof {
                self.lemma_succ_step(cur.0 as int);
            }
            match self.edges[cur.0].sibling {
                None => {
                    assert(r@ =~= self.chain(from.0 as int));
                    break;
                },
                Some(j) => {
                    let ghost before = r@;
                    r.push(j);
                    assert(r@ + self.succ@[j.0 as int] =~= before + self.succ@[cur.0 as int]);
                    cur = j;
                },
            }
        }
        r
    }

    /// The children of `parent`, in order.
    pub fn iter_children(&self, parent: NodeId) -> (r: Vec<NodeId>)
        requires
            self.wf(),
            self.valid(parent),
        ensures
            r@ == self.children(parent.0 as int),
    {
        match self.edges[parent.0].child {
            None => Vec::new(),
            Some(head) => self.iter_siblings(head),
        }
    }

    /// The last node of the sibling chain that starts at `from`.
    pub fn last_sibling(&self, from: NodeId) -> (r: Option<NodeId>)
        requires
            self.wf(),
            self.valid(from),
        ensures
            r == Some(self.chain(from.0 as int).last()),
    {
        let v = self.iter_siblings(from);
        Some(v[v.len() - 1])
    }

    pub fn last_child(&self, parent: NodeId) -> (r: Option<NodeId>)
        requires
            self.wf(),
            self.valid(parent),
        ensures
            r == (if self.children(parent.0 as int).len() == 0 {
                None
            } else {
                Some(self.children(parent.0 as int).last())
            }),
    {
        let v = self.iter_children(parent);
        if v.len() == 0 {
            None
        } else {
            Some(v[v.len() - 1])
        }
    }

    /// The child of `node`'s parent whose next sibling is `node`.
    pub fn previous_sibling(&self, node: NodeId) -> (r: Option<NodeId>)
        requires
            self.wf(),
            self.valid(node),
        ensures
            match self.par(node.0 as int) {
                None => r is None,
                Some(p) => match r {
                    Some(x) => self.children(p.0 as int).contains(x) && self.sib(x.0 as int) == Some(node),
                    None => forall|k: int|
                        0 <= k < self.children(p.0 as int).len() ==> self.sib(
                            #[trigger] self.children(p.0 as int)[k].0 as int,
                        ) != Some(node),
                },
            },
    {
        match self.edges[node.0].parent {
            None => None,
            Some(p) => {
                let v = self.iter_children(p);
                proof {
                    self.lemma_children_valid(p.0 as int);
                }
                let mut i: usize = 0;
                while i < v.len()
                    invariant
                        v@ == self.children(p.0 as int),
                        self.par(node.0 as int) == Some(p),
                        forall|k: int| 0 <= k < v@.len() ==> (#[trigger] v@[k]).0 < self.len(),
                        i <= v.len(),
                        forall|k: int| 0 <= k < i ==> self.sib(#[trigger] v@[k].0 as int) != Some(node),
                    decreases v.len() - i,
                {
                    let x = v[i];
                    assert(x.0 < self.len());
                    if self.edges[x.0].sibling == Some(node) {
                        return Some(x);
                    }
                    i = i + 1;
                }
                None
            },
        }
    }

    /// A chain through `a` is its prefix up to `a` followed by the successors of `a`.
    pub proof fn lemma_split_chain_at(&self, x: int, a: NodeId)
        requires
            self.wf(),
            0 <= x < self.len(),
            self.succ@[x].contains(a),
        ensures
            self.succ@[x] == upto(self.succ@[x], a) + self.succ@[a.0 as int],
            self.succ@[x].no_duplicates(),
            a.0 < self.len(),
    {
        let k = choose|k: int| 0 <= k < self.succ@[x].len() && self.succ@[x][k] == a;
        self.lemma_succ_distinct(x);
        self.lemma_succ_step(x);
        lemma_upto_at(self.succ@[x], k);
        self.lemma_succ_skip(x, k);
        assert(self.succ@[x] =~= self.succ@[x].take(k + 1) + self.succ@[x].skip(k + 1));
    }

    /// Every child is a valid node.
    pub proof fn lemma_children_valid_pub(&self, p: int)
        requires
            self.wf(),
            0 <= p < self.len(),
        ensures
            forall|k: int| 0 <= k < self.children(p).len() ==> (#[trigger] self.children(p)[k]).0 < self.len(),
            self.children(p).no_duplicates(),
    {
        self.lemma_children_valid(p);
        if let Some(h) = self.kid(p) {
            self.lemma_succ_distinct(h.0 as int);
        }
    }

    /// Every child is a valid node.
    pub proof fn lemma_children_valid(&self, p: int)
        requires
            self.wf(),
            0 <= p < self.len(),
        ensures
            forall|k: int| 0 <= k < self.children(p).len() ==> (#[trigger] self.children(p)[k]).0 < self.len(),
            forall|k: int| 0 <= k < self.chain(p).len() ==> (#[trigger] self.chain(p)[k]).0 < self.len(),
    {
        reveal(Tree::chains_ok);
        assert forall|k: int| 0 <= k < self.children(p).len() implies (#[trigger] self.children(p)[k]).0 < self.len() by {
            let h = self.kid(p).unwrap();
            assert(self.children(p) == self.chain(h.0 as int));
            if k > 0 {
                assert(self.children(p)[k] == self.succ@[h.0 as int][k - 1]);
            }
        }
        assert forall|k: int| 0 <= k < self.chain(p).len() implies (#[trigger] self.chain(p)[k]).0 < self.len() by {
            if k > 0 {
                assert(self.chain(p)[k] == self.succ@[p][k - 1]);
            }
        }
    }
}

impl Tree {
    /// Replaces the sibling link of `a` by `v`.
    fn set_sibling(&mut self, a: NodeId, v: Option<NodeId>)
        requires
            old(self).chained(),
            old(self).valid(a),
            link_ok(v, old(self).len()),
            match v {
                None => true,
                Some(b) => b != a && !old(self).succ@[b.0 as int].contains(a),
            },
        ensures
            final(self).chained(),
            final(self).len() == old(self).len(),
            final(self).root == old(self).root,
            forall|x: int| 0 <= x < old(self).len() && x != a.0 ==> final(self).edges@[x] == old(self).edges@[x],
            final(self).edges@[a.0 as int] == (TreeEdges { sibling: v, ..old(self).edges@[a.0 as int] }),
            final(self).succ@ == relink(old(self).succ@, a, tail_of(old(self).succ@, v)),
    {
        let ghost t0: Tree = *self;
        let mut e = self.edges[a.0];
        e.sibling = v;
        self.edges[a.0] = e;
        self.succ = Ghost(relink(self.succ@, a, tail_of(self.succ@, v)));
        proof {
            lemma_relink(&t0, self, a.0 as int);
        }
    }

    /// Sets the parent link of `a`.
    fn set_parent(&mut self, a: NodeId, p: Option<NodeId>)
        requires
            old(self).chained(),
            old(self).valid(a),
            link_ok(p, old(self).len()),
        ensures
            final(self).chained(),
            old(self).unique() ==> final(self).unique(),
            final(self).len() == old(self).len(),
            final(self).root == old(self).root,
            forall|x: int| 0 <= x < old(self).len() && x != a.0 ==> final(self).edges@[x] == old(self).edges@[x],
            final(self).edges@[a.0 as int] == (TreeEdges { parent: p, ..old(self).edges@[a.0 as int] }),
            final(self).succ@ == old(self).succ@,
    {
        let ghost t0: Tree = *self;
        let mut e = self.edges[a.0];
        e.parent = p;
        self.edges[a.0] = e;
        proof {
            if t0.unique() {
                Tree::lemma_unique_fewer_links(&t0, self);
            }
        }
        proof {
            reveal(Tree::chains_ok);
            assert forall|i: int| 0 <= i < self.len() implies #[trigger] self.succ@[i] == tail_of(self.succ@, self.sib(i)) by {
                assert(self.sib(i) == old(self).sib(i));
            }
        }
    }

    /// Inserts `new_sibling` right after `node`; the former rest of `node`'s
    /// chain follows `new_sibling`, which takes `node`'s parent. The parent
    /// links of that rest are left as they are.
    #[verifier::rlimit(100)]
    pub fn insert_after(&mut self, node: NodeId, new_sibling: NodeId)
        requires
            old(self).wf(),
            old(self).valid(node),
            old(self).valid(new_sibling),
            node != new_sibling,
            old(self).sib(new_sibling.0 as int) is None,
            old(self).unlinked(new_sibling),
        ensures
            final(self).wf(),
            final(self).len() == old(self).len(),
            final(self).root == old(self).root,
            forall|x: int|
                0 <= x < old(self).len() && x != node.0 && x != new_sibling.0 ==> final(self).edges@[x]
                    == old(self).edges@[x],
            final(self).edges@[node.0 as int] == (TreeEdges {
                sibling: Some(new_sibling),
                ..old(self).edges@[node.0 as int]
            }),
            final(self).edges@[new_sibling.0 as int] == (TreeEdges {
                parent: old(self).par(node.0 as int),
                sibling: old(self).sib(node.0 as int),
                child: old(self).kid(new_sibling.0 as int),
            }),
            final(self).succ@ == relink(
                old(self).succ@.update(new_sibling.0 as int, old(self).succ@[node.0 as int]),
                node,
                seq![new_sibling] + old(self).succ@[node.0 as int],
            ),
            final(self).chain(node.0 as int) == seq![node, new_sibling] + old(self).succs(node.0 as int),
            final(self).chain(node.0 as int).len() == old(self).chain(node.0 as int).len() + 1,
            forall|d: NodeId|
                old(self).valid(d) && d != node && d != new_sibling && #[trigger] old(self).detached(d)
                    ==> final(self).detached(d),
            forall|x: int| 0 <= x < old(self).len() ==> #[trigger] final(self).kid(x) == old(self).kid(x),
    {
        let ghost t0: Tree = *self;
        let old_sibling = self.edges[node.0].sibling;
        let parent = self.edges[node.0].parent;
        proof {
            t0.lemma_unlinked_not_in_succ(new_sibling);
            t0.lemma_succ_step(node.0 as int);
        }
        self.set_sibling(new_sibling, old_sibling);
        let ghost t1: Tree = *self;
        proof {
            assert forall|x: int| 0 <= x < t0.len() implies #[trigger] t1.succ@[x] == (if x == new_sibling.0 {
                t0.succ@[node.0 as int]
            } else {
                t0.succ@[x]
            }) by {
                assert(!t0.succ@[x].contains(new_sibling));
            }
            assert(t1.succ@[new_sibling.0 as int] == t0.succ@[node.0 as int]);
            assert(!t0.succ@[node.0 as int].contains(node));
        }
        self.set_sibling(node, Some(new_sibling));
        self.set_parent(new_sibling, parent);
        proof {
            let s = relink(
                t0.succ@.update(new_sibling.0 as int, t0.succ@[node.0 as int]),
                node,
                seq![new_sibling] + t0.succ@[node.0 as int],
            );
            assert(t1.succ@ =~= t0.succ@.update(new_sibling.0 as int, t0.succ@[node.0 as int]));
            assert forall|x: int| 0 <= x < t0.len() implies #[trigger] self.succ@[x] == s[x] by {
                if x == new_sibling.0 {
                    assert(!t0.succ@[node.0 as int].contains(node));
                }
            }
            assert(self.succ@ =~= s);
            assert(self.chain(node.0 as int) =~= seq![node, new_sibling] + t0.succs(node.0 as int));
            lemma_push_unique(&t0, self, node, new_sibling);
            assert forall|d: NodeId|
                t0.valid(d) && d != node && d != new_sibling && #[trigger] t0.detached(d) implies self.detached(d) by {
                assert forall|x: int| 0 <= x < self.len() implies self.sib(x) != Some(d) && self.kid(x) != Some(d) by {
                    if x != node.0 && x != new_sibling.0 {
                        assert(self.edges@[x] == t0.edges@[x]);
                    }
                }
            }
        }
    }
}

impl Tree {
    /// No sibling link targets `j`.
    pub open spec fn is_head(&self, j: NodeId) -> bool {
        forall|x: int| 0 <= x < self.len() ==> self.sib(x) != Some(j)
    }

    /// Two chain heads that share a node are the same head.
    pub proof fn lemma_heads_disjoint(&self, a: NodeId, b: NodeId, k: int)
        requires
            self.wf(),
            self.valid(a),
            self.valid(b),
            self.is_head(a),
            self.is_head(b),
            0 <= k < self.chain(a.0 as int).len(),
            self.chain(b.0 as int).contains(self.chain(a.0 as int)[k]),
        ensures
            a == b,
        decreases k,
    {
        let y = self.chain(a.0 as int)[k];
        let m = choose|m: int| 0 <= m < self.chain(b.0 as int).len() && self.chain(b.0 as int)[m] == y;
        if k == 0 {
            if m > 0 {
                self.lemma_succ_linked(b.0 as int, m - 1);
                if m - 1 > 0 {
                    assert(self.valid(self.succ@[b.0 as int][m - 2])) by {
                        self.lemma_children_valid(b.0 as int);
                        assert(self.chain(b.0 as int)[m - 1] == self.succ@[b.0 as int][m - 2]);
                    }
                }
            }
        } else {
            self.lemma_succ_linked(a.0 as int, k - 1);
            self.lemma_children_valid(a.0 as int);
            self.lemma_children_valid(b.0 as int);
            let w = self.chain(a.0 as int)[k - 1];
            assert(k - 1 == 0 ==> w == a);
            assert(k - 1 > 0 ==> w == self.succ@[a.0 as int][k - 2]);
            assert(self.sib(w.0 as int) == Some(y));
            if m == 0 {
                assert(y == b);
            } else {
                self.lemma_succ_linked(b.0 as int, m - 1);
                let w2 = self.chain(b.0 as int)[m - 1];
                assert(m - 1 == 0 ==> w2 == b);
                assert(m - 1 > 0 ==> w2 == self.succ@[b.0 as int][m - 2]);
                assert(self.sib(w2.0 as int) == Some(y));
                self.lemma_sib_unique(w.0 as int, w2.0 as int);
                self.lemma_heads_disjoint(a, b, k - 1);
            }
        }
    }

    /// The last node of a chain has no successor.
    pub proof fn lemma_last_of_chain(&self, i: int)
        requires
            self.wf(),
            0 <= i < self.len(),
        ensures
            self.succ@[self.chain(i).last().0 as int].len() == 0,
            self.sib(self.chain(i).last().0 as int) is None,
            self.chain(i).last().0 < self.len(),
    {
        reveal(Tree::chains_ok);
        let c = self.chain(i);
        self.lemma_children_valid(i);
        if self.succ@[i].len() > 0 {
            let k = self.succ@[i].len() - 1;
            self.lemma_succ_skip(i, k);
            assert(self.succ@[i].skip(k + 1) =~= Seq::<NodeId>::empty());
            assert(c.last() == self.succ@[i][k]);
        }
        let l = c.last().0 as int;
        assert(self.succ@[l] == tail_of(self.succ@, self.sib(l)));
    }

    /// Sets the first-child link of `a` to a node that no link targets.
    fn set_child(&mut self, a: NodeId, v: Option<NodeId>)
        requires
            old(self).wf(),
            old(self).valid(a),
            link_ok(v, old(self).len()),
            match v {
                None => true,
                Some(c) => old(self).unlinked(c),
            },
        ensures
            final(self).wf(),
            final(self).len() == old(self).len(),
            final(self).root == old(self).root,
            forall|x: int| 0 <= x < old(self).len() && x != a.0 ==> final(self).edges@[x] == old(self).edges@[x],
            final(self).edges@[a.0 as int] == (TreeEdges { child: v, ..old(self).edges@[a.0 as int] }),
            final(self).succ@ == old(self).succ@,
    {
        proof {
            reveal(Tree::unique);
        }
        let mut e = self.edges[a.0];
        e.child = v;
        self.edges[a.0] = e;
        proof {
            reveal(Tree::chains_ok);
            assert forall|i: int| 0 <= i < self.len() implies #[trigger] self.succ@[i] == tail_of(self.succ@, self.sib(i)) by {
                assert(self.sib(i) == old(self).sib(i));
            }
        }
    }

    /// Detaches and returns the next sibling of `node`. The detached node
    /// keeps its own links, including its parent.
    pub fn pop_sibling(&mut self, node: NodeId) -> (r: Option<NodeId>)
        requires
            old(self).wf(),
            old(self).valid(node),
        ensures
            final(self).wf(),
            r == old(self).sib(node.0 as int),
            final(self).len() == old(self).len(),
            final(self).root == old(self).root,
            forall|x: int| 0 <= x < old(self).len() && x != node.0 ==> final(self).edges@[x] == old(self).edges@[x],
            final(self).edges@[node.0 as int] == (TreeEdges { sibling: None, ..old(self).edges@[node.0 as int] }),
            final(self).succ@ == relink(old(self).succ@, node, Seq::empty()),
            final(self).chain(node.0 as int) == seq![node],
    {
        let ghost t0: Tree = *self;
        let r = self.edges[node.0].sibling;
        self.set_sibling(node, None);
        proof {
            Tree::lemma_unique_fewer_links(&t0, self);
        }
        assert(self.chain(node.0 as int) =~= seq![node]);
        r
    }

    /// Appends `child` to the children of `parent` and makes `parent` its parent.
    #[verifier::rlimit(100)]
    pub fn attach_child(&mut self, parent: NodeId, child: NodeId)
        requires
            old(self).wf(),
            old(self).valid(parent),
            old(self).valid(child),
            parent != child,
            old(self).sib(child.0 as int) is None,
            old(self).unlinked(child),
        ensures
            final(self).wf(),
            final(self).len() == old(self).len(),
            final(self).root == old(self).root,
            final(self).children(parent.0 as int) == old(self).children(parent.0 as int).push(child),
            forall|q: int|
                0 <= q < old(self).len() && q != parent.0 ==> #[trigger] final(self).children(q) == old(
                    self,
                ).children(q),
            final(self).par(child.0 as int) == Some(parent),
            final(self).kid(child.0 as int) == old(self).kid(child.0 as int),
            forall|x: int|
                0 <= x < old(self).len() && x != child.0 ==> #[trigger] final(self).par(x) == old(self).par(x),
            forall|x: int|
                0 <= x < old(self).len() && x != parent.0 ==> #[trigger] final(self).kid(x) == old(self).kid(x),
            forall|d: NodeId|
                old(self).valid(d) && d != child && #[trigger] old(self).unlinked(d) ==> final(self).unlinked(d)
                    && final(self).sib(d.0 as int) == old(self).sib(d.0 as int),
            final(self).listed(child.0 as int),
            (forall|x: int|
                0 <= x < old(self).len() && x != child.0 && old(self).root != Some(NodeId(x as usize))
                    ==> #[trigger] old(self).listed(x)) ==> final(self).attached(),
            forall|x: int|
                0 <= x < old(self).len() && !old(self).children(parent.0 as int).contains(NodeId(x as usize))
                    ==> #[trigger] final(self).sib(x) == old(self).sib(x),
            forall|x: int|
                0 <= x < old(self).len() && x != child.0 && #[trigger] old(self).listed(x) ==> final(self).listed(x),
    {
        let ghost t0: Tree = *self;
        proof {
            t0.lemma_unlinked_not_in_succ(child);
        }
        match self.last_child(parent) {
            Some(tail) => {
                let ghost h = t0.kid(parent.0 as int).unwrap();
                proof {
                    t0.lemma_last_of_chain(h.0 as int);
                    t0.lemma_succ_distinct(h.0 as int);
                    t0.lemma_children_valid(h.0 as int);
                }
                self.insert_after(tail, child);
                proof {
                    let s0 = t0.succ@[h.0 as int];
                    if h != tail {
                        assert(s0.contains(tail)) by {
                            assert(s0[s0.len() - 1] == tail);
                        }
                        lemma_upto(s0, tail);
                        let p = upto(s0, tail);
                        assert(p.last() == s0[p.len() - 1]);
                        assert(p.len() == s0.len());
                        assert(p =~= s0);
                        assert(t0.succ@.update(child.0 as int, t0.succ@[tail.0 as int])[h.0 as int] == s0);
                    }
                    assert(self.children(parent.0 as int) =~= t0.children(parent.0 as int).push(child));
                    assert forall|d: NodeId|
                        t0.valid(d) && d != child && #[trigger] t0.unlinked(d) implies self.unlinked(d) && self.sib(
                            d.0 as int,
                        ) == t0.sib(d.0 as int) by {
                        if d == tail {
                            if tail == h {
                                assert(t0.kid(parent.0 as int) == Some(d));
                            } else {
                                let s0 = t0.succ@[h.0 as int];
                                assert(s0[s0.len() - 1] == tail);
                                t0.lemma_succ_linked(h.0 as int, s0.len() - 1);
                                t0.lemma_succ_step(h.0 as int);
                                if s0.len() - 1 > 0 {
                                    assert(t0.valid(s0[s0.len() - 2]));
                                }
                            }
                        }
                        assert forall|x: int| 0 <= x < self.len() implies self.sib(x) != Some(d) && self.kid(x)
                            != Some(d) by {
                            if x != tail.0 && x != child.0 {
                                assert(self.edges@[x] == t0.edges@[x]);
                            }
                        }
                    }
                    assert forall|q: int| 0 <= q < t0.len() && q != parent.0 implies #[trigger] self.children(q)
                        == t0.children(q) by {
                        if let Some(hq) = t0.kid(q) {
                            if hq == h {
                                t0.lemma_kid_unique(q, parent.0 as int);
                            }
                            assert(hq != child);
                            if t0.chain(hq.0 as int).contains(tail) {
                                let k = choose|k: int|
                                    0 <= k < t0.chain(hq.0 as int).len() && t0.chain(hq.0 as int)[k] == tail;
                                let c = t0.chain(h.0 as int);
                                assert(c[c.len() - 1] == tail);
                                t0.lemma_kid_is_head(q);
                                t0.lemma_kid_is_head(parent.0 as int);
                                t0.lemma_heads_disjoint(hq, h, k);
                            }
                            assert(!t0.succ@[hq.0 as int].contains(tail)) by {
                                if t0.succ@[hq.0 as int].contains(tail) {
                                    let k = choose|k: int|
                                        0 <= k < t0.succ@[hq.0 as int].len() && t0.succ@[hq.0 as int][k] == tail;
                                    assert(t0.chain(hq.0 as int)[k + 1] == tail);
                                }
                            }
                            assert(hq != tail) by {
                                assert(t0.chain(hq.0 as int)[0] == hq);
                            }
                            assert(self.succ@[hq.0 as int] == t0.succ@[hq.0 as int]);
                        }
                    }
                }
            },
            None => {
                self.set_child(parent, Some(child));
                proof {
                    t0.lemma_succ_step(child.0 as int);
                    assert(self.children(parent.0 as int) =~= t0.children(parent.0 as int).push(child));
                    assert forall|q: int| 0 <= q < t0.len() && q != parent.0 implies #[trigger] self.children(q)
                        == t0.children(q) by {
                        assert(self.kid(q) == t0.kid(q));
                    }
                    assert forall|d: NodeId|
                        t0.valid(d) && d != child && #[trigger] t0.unlinked(d) implies self.unlinked(d) && self.sib(
                            d.0 as int,
                        ) == t0.sib(d.0 as int) by {
                        assert forall|x: int| 0 <= x < self.len() implies self.sib(x) != Some(d) && self.kid(x)
                            != Some(d) by {
                            if x != parent.0 {
                                assert(self.edges@[x] == t0.edges@[x]);
                            }
                        }
                    }
                }
            },
        }
        let ghost t1: Tree = *self;
        self.set_parent(child, Some(parent));
        proof {
            assert forall|x: int| 0 <= x < t0.len() implies #[trigger] self.children(x) == t1.children(x) by {
                assert(self.kid(x) == t1.kid(x));
            }
            let cp = self.children(parent.0 as int);
            assert(cp[cp.len() - 1] == child);
            assert(self.listed(child.0 as int));
            assert forall|x: int|
                0 <= x < t0.len() && x != child.0 && #[trigger] t0.listed(x) implies self.listed(x) by {
                let q = t0.par(x).unwrap();
                assert(self.par(x) == t0.par(x));
                if q == parent {
                    let k = choose|k: int|
                        0 <= k < t0.children(q.0 as int).len() && t0.children(q.0 as int)[k] == NodeId(x as usize);
                    assert(self.children(q.0 as int)[k] == NodeId(x as usize));
                } else {
                    assert(self.children(q.0 as int) == t0.children(q.0 as int));
                }
            }
            let all_listed = forall|x: int|
                0 <= x < t0.len() && x != child.0 && t0.root != Some(NodeId(x as usize)) ==> #[trigger] t0.listed(x);
            if all_listed {
                assert forall|x: int| 0 <= x < self.len() && self.root != Some(NodeId(x as usize)) implies #[trigger] self.listed(
                    x,
                ) by {
                    if x == child.0 {
                        assert(NodeId(x as usize) == child);
                    } else {
                        assert(t0.listed(x));
                        assert(self.listed(x));
                    }
                }
            }
            assert forall|d: NodeId| t0.valid(d) && d != child && #[trigger] t0.unlinked(d) implies self.unlinked(d)
                && self.sib(d.0 as int) == t0.sib(d.0 as int) by {
                assert(t1.unlinked(d));
                assert forall|x: int| 0 <= x < self.len() implies self.sib(x) != Some(d) && self.kid(x) != Some(d) by {
                    assert(self.sib(x) == t1.sib(x) && self.kid(x) == t1.kid(x));
                }
            }
        }
    }

    /// Appends each of `children`, in order, to the children of `parent`.
    pub fn attach_children(&mut self, parent: NodeId, children: &Vec<NodeId>)
        requires
            old(self).wf(),
            old(self).valid(parent),
            children@.no_duplicates(),
            forall|k: int|
                0 <= k < children@.len() ==> {
                    &&& old(self).valid(#[trigger] children@[k])
                    &&& children@[k] != parent
                    &&& old(self).sib(children@[k].0 as int) is None
                    &&& old(self).unlinked(children@[k])
                },
        ensures
            final(self).wf(),
            final(self).len() == old(self).len(),
            final(self).root == old(self).root,
            final(self).children(parent.0 as int) == old(self).children(parent.0 as int) + children@,
            forall|k: int| 0 <= k < children@.len() ==> final(self).par(#[trigger] children@[k].0 as int) == Some(parent),
            forall|d: NodeId|
                old(self).valid(d) && !children@.contains(d) && #[trigger] old(self).detached(d) ==> final(self).detached(d),
            forall|q: int|
                0 <= q < old(self).len() && q != parent.0 ==> #[trigger] final(self).children(q) == old(self).children(q),
            forall|x: int|
                0 <= x < old(self).len() && !children@.contains(NodeId(x as usize)) ==> #[trigger] final(self).par(x)
                    == old(self).par(x),
    {
        let ghost t0: Tree = *self;
        let mut i: usize = 0;
        while i < children.len()
            invariant
                self.wf(),
                self.len() == t0.len(),
                self.root == t0.root,
                self.valid(parent),
                0 <= i <= children@.len(),
                children@.no_duplicates(),
                forall|k: int| 0 <= k < children@.len() ==> self.valid(#[trigger] children@[k]),
                self.children(parent.0 as int) == t0.children(parent.0 as int) + children@.take(i as int),
                forall|k: int| 0 <= k < i ==> self.par(#[trigger] children@[k].0 as int) == Some(parent),
                forall|d: NodeId|
                    t0.valid(d) && !children@.contains(d) && #[trigger] t0.detached(d) ==> self.detached(d),
                forall|q: int| 0 <= q < t0.len() && q != parent.0 ==> #[trigger] self.children(q) == t0.children(q),
                forall|x: int|
                    0 <= x < t0.len() && !children@.contains(NodeId(x as usize)) ==> #[trigger] self.par(x) == t0.par(x),
                forall|k: int|
                    i <= k < children@.len() ==> {
                        &&& self.valid(#[trigger] children@[k])
                        &&& children@[k] != parent
                        &&& self.sib(children@[k].0 as int) is None
                        &&& self.unlinked(children@[k])
                    },
            decreases children@.len() - i,
        {
            let c = children[i];
            let ghost before: Tree = *self;
            self.attach_child(parent, c);
            proof {
                assert(children@.take(i + 1) =~= children@.take(i as int).push(c));
                assert forall|q: int| 0 <= q < t0.len() && q != parent.0 implies #[trigger] self.children(q) == t0.children(q) by {
                    assert(before.children(q) == t0.children(q));
                }
                assert forall|x: int|
                    0 <= x < t0.len() && !children@.contains(NodeId(x as usize)) implies #[trigger] self.par(x) == t0.par(x) by {
                    assert(before.par(x) == t0.par(x));
                    assert(x != c.0);
                }
                assert forall|d: NodeId|
                    t0.valid(d) && !children@.contains(d) && #[trigger] t0.detached(d) implies self.detached(d) by {
                    assert(before.detached(d));
                    assert(d != c);
                    assert(before.unlinked(d));
                }
                assert forall|k: int| 0 <= k < i + 1 implies self.par(#[trigger] children@[k].0 as int) == Some(parent) by {
                    if k < i {
                        assert(children@[k] != c);
                        assert(before.par(children@[k].0 as int) == Some(parent));
                    }
                }
                assert forall|k: int| i + 1 <= k < children@.len() implies {
                    &&& self.valid(#[trigger] children@[k])
                    &&& children@[k] != parent
                    &&& self.sib(children@[k].0 as int) is None
                    &&& self.unlinked(children@[k])
                } by {
                    assert(children@[k] != c);
                    assert(before.unlinked(children@[k]));
                }
            }
            i = i + 1;
        }
        assert(children@.take(children@.len() as int) =~= children@);
    }
}

/// Linking `node` to a node that no link targets, which takes over `node`'s
/// former successor, keeps every node the target of at most one link.
pub proof fn lemma_push_unique(t0: &Tree, u: &Tree, node: NodeId, new_sibling: NodeId)
    requires
        t0.wf(),
        u.len() == t0.len(),
        t0.valid(node),
        t0.valid(new_sibling),
        node != new_sibling,
        t0.unlinked(new_sibling),
        forall|x: int|
            0 <= x < t0.len() && x != node.0 && x != new_sibling.0 ==> u.edges@[x] == t0.edges@[x],
        u.sib(node.0 as int) == Some(new_sibling),
        u.kid(node.0 as int) == t0.kid(node.0 as int),
        u.sib(new_sibling.0 as int) == t0.sib(node.0 as int),
        u.kid(new_sibling.0 as int) == t0.kid(new_sibling.0 as int),
    ensures
        u.unique(),
{
    reveal(Tree::unique);
    let n = u.len();
    assert forall|x: int, y: int|
        0 <= x < n && 0 <= y < n && #[trigger] u.sib(x) == #[trigger] u.sib(y) && u.sib(x) is Some implies x
        == y by {
        if x != node.0 && x != new_sibling.0 && y != node.0 && y != new_sibling.0 {
            assert(t0.sib(x) == u.sib(x) && t0.sib(y) == u.sib(y));
        } else if x == node.0 || y == node.0 {
            assert(t0.sib(x) != Some(new_sibling) && t0.sib(y) != Some(new_sibling));
            if x != node.0 && x != new_sibling.0 {
                assert(t0.sib(x) == u.sib(x));
            }
            if y != node.0 && y != new_sibling.0 {
                assert(t0.sib(y) == u.sib(y));
            }
        } else if x == new_sibling.0 && y != new_sibling.0 {
            assert(t0.sib(y) == u.sib(y));
        } else if y == new_sibling.0 && x != new_sibling.0 {
            assert(t0.sib(x) == u.sib(x));
        }
    }
    assert forall|x: int, y: int|
        0 <= x < n && 0 <= y < n && #[trigger] u.kid(x) == #[trigger] u.kid(y) && u.kid(x) is Some implies x
        == y by {
        assert(t0.kid(x) == u.kid(x) && t0.kid(y) == u.kid(y));
    }
    assert forall|x: int, y: int|
        0 <= x < n && 0 <= y < n && #[trigger] u.sib(x) == #[trigger] u.kid(y) implies u.sib(x) is None by {
        assert(t0.kid(y) == u.kid(y));
        if x == node.0 {
            assert(t0.kid(y) != Some(new_sibling));
        } else if x == new_sibling.0 {
            assert(t0.sib(node.0 as int) == u.sib(x));
        } else {
            assert(t0.sib(x) == u.sib(x));
        }
    }
}

impl Tree {
    /// Dropping links keeps every node the target of at most one link.
    pub proof fn lemma_unique_fewer_links(t0: &Tree, u: &Tree)
        requires
            t0.unique(),
            u.len() == t0.len(),
            forall|x: int|
                #![trigger u.sib(x)]
                #![trigger u.kid(x)]
                0 <= x < t0.len() ==> (u.sib(x) == t0.sib(x) || u.sib(x) is None) && (u.kid(x) == t0.kid(x)
                    || u.kid(x) is None),
        ensures
            u.unique(),
    {
        reveal(Tree::unique);
        let n = u.len();
        assert forall|x: int, y: int|
            0 <= x < n && 0 <= y < n && #[trigger] u.sib(x) == #[trigger] u.sib(y) && u.sib(x) is Some implies x
            == y by {
            assert(t0.sib(x) == u.sib(x) && t0.sib(y) == u.sib(y));
        }
        assert forall|x: int, y: int|
            0 <= x < n && 0 <= y < n && #[trigger] u.kid(x) == #[trigger] u.kid(y) && u.kid(x) is Some implies x
            == y by {
            assert(t0.sib(x) == u.sib(x) || u.sib(x) is None);
            assert(t0.kid(x) == u.kid(x) && t0.kid(y) == u.kid(y));
        }
        assert forall|x: int, y: int|
            0 <= x < n && 0 <= y < n && #[trigger] u.sib(x) == #[trigger] u.kid(y) implies u.sib(x) is None by {
            assert(t0.sib(y) == u.sib(y) || u.sib(y) is None);
            if u.sib(x) is Some {
                assert(t0.sib(x) == u.sib(x));
                assert(t0.kid(y) == u.kid(y));
            }
        }
    }

    /// The first child of a node is the target of no sibling link.
    pub proof fn lemma_kid_is_head(&self, q: int)
        requires
            self.wf(),
            0 <= q < self.len(),
            self.kid(q) is Some,
        ensures
            self.is_head(self.kid(q).unwrap()),
    {
        reveal(Tree::unique);
        assert forall|x: int| 0 <= x < self.len() implies self.sib(x) != Some(self.kid(q).unwrap()) by {
            if self.sib(x) == Some(self.kid(q).unwrap()) {
                assert(self.sib(x) == self.kid(q));
            }
        }
    }

    /// Two nodes with the same first child are the same node.
    pub proof fn lemma_kid_unique(&self, x: int, y: int)
        requires
            self.wf(),
            0 <= x < self.len(),
            0 <= y < self.len(),
            self.kid(x) == self.kid(y),
            self.kid(x) is Some,
        ensures
            x == y,
    {
        reveal(Tree::unique);
    }

    /// Two nodes with the same next sibling are the same node.
    pub proof fn lemma_sib_unique(&self, x: int, y: int)
        requires
            self.wf(),
            0 <= x < self.len(),
            0 <= y < self.len(),
            self.sib(x) == self.sib(y),
            self.sib(x) is Some,
        ensures
            x == y,
    {
        reveal(Tree::unique);
    }
}

/// Position of the last node kept by a split whose matching child is at `k`.
pub open spec fn split_point(k: int, mode: SplitMode) -> int {
    match mode {
        SplitMode::After => k,
        SplitMode::Before => k - 1,
    }
}

/// In a sequence without duplicates, the prefix through `s[i]` is `s.take(i + 1)`.
pub proof fn lemma_upto_at(s: Seq<NodeId>, i: int)
    requires
        s.no_duplicates(),
        0 <= i < s.len(),
    ensures
        upto(s, s[i]) == s.take(i + 1),
{
    lemma_upto(s, s[i]);
    let p = upto(s, s[i]);
    assert(s.contains(s[i]));
    assert(p.last() == s[p.len() - 1]);
}

impl Tree {
    /// Only `x` links to the next sibling of `x`.
    pub proof fn lemma_sib_target_only(&self, x: int)
        requires
            self.wf(),
            0 <= x < self.len(),
            self.sib(x) is Some,
        ensures
            forall|y: int| 0 <= y < self.len() && y != x ==> self.sib(y) != self.sib(x),
            forall|y: int| 0 <= y < self.len() ==> self.kid(y) != self.sib(x),
    {
        reveal(Tree::unique);
        assert forall|y: int| 0 <= y < self.len() ==> self.kid(y) != self.sib(x) by {
            if self.kid(y) == self.sib(x) {
                assert(self.sib(x) == self.kid(y));
            }
        }
    }

    /// Only the parent links to its first child.
    pub proof fn lemma_kid_target_only(&self, x: int)
        requires
            self.wf(),
            0 <= x < self.len(),
            self.kid(x) is Some,
        ensures
            forall|y: int| 0 <= y < self.len() && y != x ==> self.kid(y) != self.kid(x),
            forall|y: int| 0 <= y < self.len() ==> self.sib(y) != self.kid(x),
    {
        reveal(Tree::unique);
        assert forall|y: int| 0 <= y < self.len() ==> self.sib(y) != self.kid(x) by {
            if self.sib(y) == self.kid(x) {
                assert(self.sib(y) == self.kid(x));
            }
        }
    }

    /// After cutting the chain of `p`'s children after position `b`, the
    /// children of `p` are the first `b + 1` of them.
    pub proof fn lemma_children_cut(t0: &Tree, u: &Tree, p: int, b: int)
        requires
            t0.wf(),
            0 <= p < t0.len(),
            0 <= b < t0.children(p).len(),
            u.kid(p) == t0.kid(p),
            u.succ@ == relink(t0.succ@, t0.children(p)[b], Seq::empty()),
        ensures
            u.children(p) == t0.children(p).take(b + 1),
    {
        let h = t0.kid(p).unwrap();
        let hh = h.0 as int;
        t0.lemma_succ_distinct(hh);
        t0.lemma_succ_step(hh);
        let left = t0.children(p)[b];
        if b == 0 {
            assert(u.children(p) =~= t0.children(p).take(1));
        } else {
            assert(t0.succ@[hh][b - 1] == left);
            assert(t0.succ@[hh].contains(left));
            assert(left != h);
            lemma_upto_at(t0.succ@[hh], b - 1);
            assert(u.children(p) =~= t0.children(p).take(b + 1));
        }
    }

    /// Splits the children of `parent` at the first child that satisfies
    /// `predicate`: the chain is cut after that child (`After`) or before it
    /// (`Before`). The cut-off part is not re-parented.
    pub fn split_children<F: Fn(NodeId) -> bool>(&mut self, parent: NodeId, predicate: F, mode: SplitMode) -> (r:
        Option<Split>)
        requires
            old(self).wf(),
            old(self).valid(parent),
            forall|n: NodeId| call_requires(predicate, (n,)),
            forall|n: NodeId, a: bool, b: bool|
                call_ensures(predicate, (n,), a) && call_ensures(predicate, (n,), b) ==> a == b,
        ensures
            final(self).wf(),
            final(self).len() == old(self).len(),
            final(self).root == old(self).root,
            r is None ==> final(self).edges@ == old(self).edges@ && final(self).succ@ == old(self).succ@,
            r is None ==> forall|k: int|
                0 <= k < old(self).children(parent.0 as int).len() && call_ensures(
                    predicate,
                    (#[trigger] old(self).children(parent.0 as int)[k],),
                    true,
                ) && (forall|j: int|
                    0 <= j < k ==> call_ensures(predicate, (old(self).children(parent.0 as int)[j],), false))
                    ==> !(0 <= split_point(k, mode) < old(self).children(parent.0 as int).len() - 1),
            r is Some ==> exists|k: int|
                {
                    &&& 0 <= k < old(self).children(parent.0 as int).len()
                    &&& 0 <= split_point(k, mode) < old(self).children(parent.0 as int).len() - 1
                    &&& call_ensures(predicate, (#[trigger] old(self).children(parent.0 as int)[k],), true)
                    &&& forall|j: int|
                        0 <= j < k ==> call_ensures(
                            predicate,
                            (#[trigger] old(self).children(parent.0 as int)[j],),
                            false,
                        )
                    &&& r.unwrap().left == old(self).children(parent.0 as int)[split_point(k, mode)]
                    &&& r.unwrap().right == old(self).children(parent.0 as int)[split_point(k, mode) + 1]
                    &&& final(self).children(parent.0 as int) == old(self).children(parent.0 as int).take(
                        split_point(k, mode) + 1,
                    )
                    &&& final(self).edges@ == old(self).edges@.update(
                        r.unwrap().left.0 as int,
                        TreeEdges { sibling: None, ..old(self).edges@[r.unwrap().left.0 as int] },
                    )
                },
    {
        let ghost t0: Tree = *self;
        let v = self.iter_children(parent);
        proof {
            self.lemma_children_valid(parent.0 as int);
        }
        let mut i: usize = 0;
        while i < v.len()
            invariant
                v@ == t0.children(parent.0 as int),
                *self == t0,
                i <= v.len(),
                forall|n: NodeId| call_requires(predicate, (n,)),
                forall|j: int| 0 <= j < i ==> call_ensures(predicate, (#[trigger] v@[j],), false),
            ensures
                i <= v.len(),
                forall|j: int| 0 <= j < i ==> call_ensures(predicate, (#[trigger] v@[j],), false),
                i < v.len() ==> call_ensures(predicate, (v@[i as int],), true),
            decreases v.len() - i,
        {
            if predicate(v[i]) {
                break;
            }
            i = i + 1;
        }
        if i == v.len() {
            return None;
        }
        let b: usize = match mode {
            SplitMode::After => i,
            SplitMode::Before => {
                if i == 0 {
                    return None;
                }
                i - 1
            },
        };
        if b + 1 >= v.len() {
            return None;
        }
        let left = v[b];
        proof {
            t0.lemma_children_valid(parent.0 as int);
            let h = t0.kid(parent.0 as int).unwrap();
            t0.lemma_succ_step(h.0 as int);
            if b == 0 {
                assert(t0.sib(left.0 as int) == Some(v@[1]));
            } else {
                t0.lemma_succ_linked(h.0 as int, b as int);
                assert(v@[b as int + 1] == t0.succ@[h.0 as int][b as int]);
                assert(left == t0.succ@[h.0 as int][b - 1]);
            }
        }
        let right = self.pop_sibling(left);
        proof {
            Tree::lemma_children_cut(&t0, self, parent.0 as int, b as int);
            assert(self.edges@ =~= t0.edges@.update(
                left.0 as int,
                TreeEdges { sibling: None, ..t0.edges@[left.0 as int] },
            ));
        }
        let r = Some(Split { left, right: right.unwrap() });
        proof {
            let k = i as int;
            let bb = b as int;
            let c = t0.children(parent.0 as int);
            assert(0 <= bb < c.len() - 1);
            assert(call_ensures(predicate, (c[k],), true));
            assert(bb == split_point(k, mode));
            assert(r.unwrap().left == c[bb]);
            assert(r.unwrap().right == c[bb + 1]);
        }
        r
    }
}

impl Tree {
    /// Detaches `child` from the children of its parent. When `child` heads
    /// the list, the parent's first child becomes `child`'s next sibling and
    /// `child`'s own sibling link is cleared; otherwise the chain is cut
    /// before `child`, which keeps the rest of the chain behind it. `child`
    /// keeps its parent link.
    #[verifier::rlimit(40)]
    pub fn remove_child(&mut self, child: NodeId)
        requires
            old(self).wf(),
            old(self).valid(child),
        ensures
            final(self).wf(),
            final(self).len() == old(self).len(),
            final(self).root == old(self).root,
            final(self).par(child.0 as int) == old(self).par(child.0 as int),
            match old(self).par(child.0 as int) {
                None => final(self).edges@ == old(self).edges@,
                Some(p) => {
                    let c = old(self).children(p.0 as int);
                    if old(self).kid(p.0 as int) == Some(child) {
                        &&& final(self).kid(p.0 as int) == old(self).sib(child.0 as int)
                        &&& final(self).children(p.0 as int) == c.drop_first()
                        &&& !final(self).children(p.0 as int).contains(child)
                    } else if c.contains(child) {
                        &&& final(self).children(p.0 as int) == c.take(c.index_of(child))
                        &&& !final(self).children(p.0 as int).contains(child)
                    } else {
                        final(self).edges@ == old(self).edges@
                    }
                },
            },
    {
        let ghost t0: Tree = *self;
        match self.edges[child.0].parent {
            None => {},
            Some(p) => {
                if self.edges[p.0].child == Some(child) {
                    let next = self.edges[child.0].sibling;
                    proof {
                        t0.lemma_succ_step(child.0 as int);
                        t0.lemma_kid_target_only(p.0 as int);
                        if next is Some {
                            t0.lemma_sib_target_only(child.0 as int);
                        }
                    }
                    self.set_sibling(child, None);
                    let ghost t1: Tree = *self;
                    proof {
                        Tree::lemma_unique_fewer_links(&t0, &t1);
                    }
                    self.set_child(p, next);
                    proof {
                        let c = t0.children(p.0 as int);
                        if let Some(nx) = next {
                            t0.lemma_succ_step(nx.0 as int);
                            assert(!t0.succ@[nx.0 as int].contains(child)) by {
                                if t0.succ@[nx.0 as int].contains(child) {
                                    let k = choose|k: int|
                                        0 <= k < t0.succ@[nx.0 as int].len() && t0.succ@[nx.0 as int][k] == child;
                                    assert(t0.succ@[child.0 as int][k + 1] == child);
                                }
                            }
                            assert(self.succ@[nx.0 as int] == t0.succ@[nx.0 as int]);
                        }
                        assert(self.children(p.0 as int) =~= c.drop_first());
                        t0.lemma_succ_distinct(child.0 as int);
                        if self.children(p.0 as int).contains(child) {
                            let k = choose|k: int|
                                0 <= k < self.children(p.0 as int).len() && self.children(p.0 as int)[k] == child;
                            assert(c[k + 1] == child);
                            assert(c[0] == child);
                        }
                    }
                } else {
                    let prev = self.previous_sibling(child);
                    match prev {
                        None => {
                            proof {
                                let c = t0.children(p.0 as int);
                                if c.contains(child) {
                                    let k = choose|k: int| 0 <= k < c.len() && c[k] == child;
                                    let h = t0.kid(p.0 as int).unwrap();
                                    assert(k != 0);
                                    t0.lemma_succ_linked(h.0 as int, k - 1);
                                    t0.lemma_children_valid(p.0 as int);
                                    if k - 1 > 0 {
                                        assert(c[k - 1] == t0.succ@[h.0 as int][k - 2]);
                                    }
                                    assert(t0.sib(c[k - 1].0 as int) == Some(child));
                                }
                            }
                        },
                        Some(pv) => {
                            let ghost c = t0.children(p.0 as int);
                            let ghost b = c.index_of(pv);
                            proof {
                                t0.lemma_children_valid(p.0 as int);
                                let h = t0.kid(p.0 as int).unwrap();
                                t0.lemma_succ_distinct(h.0 as int);
                                t0.lemma_succ_step(h.0 as int);
                                assert(c[b] == pv);
                                if b + 1 < c.len() {
                                    t0.lemma_succ_linked(h.0 as int, b);
                                    assert(c[b + 1] == t0.succ@[h.0 as int][b]);
                                    if b > 0 {
                                        assert(c[b] == t0.succ@[h.0 as int][b - 1]);
                                    }
                                }
                                assert(b + 1 < c.len()) by {
                                    if b + 1 >= c.len() {
                                        t0.lemma_last_of_chain(h.0 as int);
                                    }
                                }
                                assert(c[b + 1] == child);
                                assert(c.contains(child));
                                assert(c[c.index_of(child)] == child);
                                assert(c.index_of(child) == b + 1);
                            }
                            self.pop_sibling(pv);
                            proof {
                                Tree::lemma_children_cut(&t0, self, p.0 as int, b);
                                assert(c.take(c.index_of(child)) == c.take(b + 1));
                                if self.children(p.0 as int).contains(child) {
                                    let k = choose|k: int|
                                        0 <= k < self.children(p.0 as int).len() && self.children(p.0 as int)[k]
                                            == child;
                                    assert(c[k] == child);
                                }
                            }
                        },
                    }
                }
            },
        }
    }

    /// Moves all children of `parent` under `new_child` (order kept), then
    /// makes `new_child` the only child of `parent`.
    pub fn interpose_child(&mut self, parent: NodeId, new_child: NodeId)
        requires
            old(self).wf(),
            old(self).valid(parent),
            old(self).valid(new_child),
            parent != new_child,
            old(self).unlinked(new_child),
            old(self).sib(new_child.0 as int) is None,
            old(self).kid(new_child.0 as int) is None,
        ensures
            final(self).wf(),
            final(self).len() == old(self).len(),
            final(self).root == old(self).root,
            final(self).children(parent.0 as int) == seq![new_child],
            final(self).children(new_child.0 as int) == old(self).children(parent.0 as int),
            final(self).par(new_child.0 as int) == Some(parent),
            forall|k: int|
                0 <= k < old(self).children(parent.0 as int).len() ==> final(self).par(
                    (#[trigger] old(self).children(parent.0 as int)[k]).0 as int,
                ) == Some(new_child),
            forall|d: NodeId|
                old(self).valid(d) && d != new_child && #[trigger] old(self).detached(d) ==> final(self).detached(d),
    {
        let ghost t0: Tree = *self;
        let v = self.iter_children(parent);
        proof {
            t0.lemma_children_valid(parent.0 as int);
            if let Some(h) = t0.kid(parent.0 as int) {
                t0.lemma_succ_distinct(h.0 as int);
            }
        }
        let mut i: usize = 0;
        while i < v.len()
            invariant
                self.wf(),
                v@ == t0.children(parent.0 as int),
                v@.no_duplicates(),
                self.len() == t0.len(),
                self.root == t0.root,
                self.succ@ == t0.succ@,
                forall|x: int|
                    0 <= x < t0.len() ==> #[trigger] self.sib(x) == t0.sib(x) && self.kid(x) == t0.kid(x),
                forall|x: int| 0 <= x < t0.len() && !v@.contains(NodeId(x as usize)) ==> #[trigger] self.par(x) == t0.par(x),
                forall|k: int| 0 <= k < v@.len() ==> (#[trigger] v@[k]).0 < t0.len(),
                forall|k: int| 0 <= k < i ==> self.par((#[trigger] v@[k]).0 as int) == Some(new_child),
                i <= v.len(),
                t0.valid(new_child),
            decreases v.len() - i,
        {
            let c = v[i];
            self.set_parent(c, Some(new_child));
            assert forall|k: int| 0 <= k < i + 1 implies self.par((#[trigger] v@[k]).0 as int) == Some(new_child) by {
                if k < i {
                    assert(v@[k] != c);
                }
            }
            i = i + 1;
        }
        let head = self.edges[parent.0].child;
        let ghost t1: Tree = *self;
        proof {
            assert(t1.children(parent.0 as int) == t0.children(parent.0 as int));
            if head is Some {
                t1.lemma_kid_target_only(parent.0 as int);
            }
            assert(!v@.contains(new_child)) by {
                if v@.contains(new_child) {
                    let k = choose|k: int| 0 <= k < v@.len() && v@[k] == new_child;
                    let h = t0.kid(parent.0 as int).unwrap();
                    if k > 0 {
                        t0.lemma_succ_linked(h.0 as int, k - 1);
                        t0.lemma_succ_step(h.0 as int);
                        if k - 1 > 0 {
                            assert(t0.valid(t0.succ@[h.0 as int][k - 2]));
                        }
                    }
                }
            }
        }
        self.set_child(parent, None);
        self.set_child(new_child, head);
        let ghost t2: Tree = *self;
        self.attach_child(parent, new_child);
        proof {
            assert forall|d: NodeId| t0.valid(d) && d != new_child && #[trigger] t0.detached(d) implies self.detached(d) by {
                assert(head != Some(d));
                assert(t1.detached(d)) by {
                    assert forall|x: int| 0 <= x < t1.len() implies t1.sib(x) != Some(d) && t1.kid(x) != Some(d) by {
                        assert(t1.sib(x) == t0.sib(x) && t1.kid(x) == t0.kid(x));
                    }
                    assert(t1.sib(d.0 as int) == t0.sib(d.0 as int));
                }
                assert(t2.detached(d)) by {
                    assert forall|x: int| 0 <= x < t2.len() implies t2.sib(x) != Some(d) && t2.kid(x) != Some(d) by {
                        if x != parent.0 && x != new_child.0 {
                            assert(t2.edges@[x] == t1.edges@[x]);
                        }
                    }
                }
                assert(t2.unlinked(d));
            }
            assert(t2.children(parent.0 as int) =~= Seq::<NodeId>::empty());
            assert(self.children(parent.0 as int) =~= seq![new_child]);
            assert(t2.children(new_child.0 as int) == t0.children(parent.0 as int));
        }
    }
}

impl Tree {
    /// `x` has a parent, and that parent lists `x` among its children.
    pub open spec fn listed(&self, x: int) -> bool {
        match self.par(x) {
            Some(p) => self.children(p.0 as int).contains(NodeId(x as usize)),
            None => false,
        }
    }

    /// Every node other than the root has a parent that lists it.
    pub open spec fn attached(&self) -> bool {
        forall|x: int| 0 <= x < self.len() && self.root != Some(NodeId(x as usize)) ==> #[trigger] self.listed(x)
    }

    /// A node listed by its parent appears exactly once among that parent's
    /// children; so in an attached tree, every node but the root has a
    /// parent whose children hold it exactly once.
    pub proof fn lemma_listed_once(&self, x: int)
        requires
            self.wf(),
            0 <= x < self.len(),
            self.listed(x) || (self.attached() && self.root != Some(NodeId(x as usize))),
        ensures
            self.par(x) is Some,
            self.children(self.par(x).unwrap().0 as int).contains(NodeId(x as usize)),
            forall|i: int, j: int|
                0 <= i < self.children(self.par(x).unwrap().0 as int).len() && 0 <= j < self.children(
                    self.par(x).unwrap().0 as int,
                ).len() && #[trigger] self.children(self.par(x).unwrap().0 as int)[i] == NodeId(x as usize)
                    && #[trigger] self.children(self.par(x).unwrap().0 as int)[j] == NodeId(x as usize) ==> i == j,
    {
        assert(self.listed(x));
        let p = self.par(x).unwrap().0 as int;
        if let Some(h) = self.kid(p) {
            self.lemma_succ_distinct(h.0 as int);
        }
    }
}

impl Tree {
    /// Unlinks the children of `parent` from it and from each other, and
    /// returns them in order; each keeps its parent link.
    pub fn detach_children(&mut self, parent: NodeId) -> (r: Vec<NodeId>)
        requires
            old(self).wf(),
            old(self).valid(parent),
        ensures
            final(self).wf(),
            r@ == old(self).children(parent.0 as int),
            final(self).len() == old(self).len(),
            final(self).root == old(self).root,
            final(self).children(parent.0 as int) == Seq::<NodeId>::empty(),
            forall|k: int| 0 <= k < r@.len() ==> final(self).detached(#[trigger] r@[k]),
            forall|k: int| 0 <= k < r@.len() ==> final(self).par((#[trigger] r@[k]).0 as int) == old(self).par(r@[k].0 as int),
            forall|d: NodeId| old(self).valid(d) && #[trigger] old(self).detached(d) ==> final(self).detached(d),
            r@.no_duplicates(),
            forall|k: int| 0 <= k < r@.len() ==> old(self).valid(#[trigger] r@[k]),
            forall|x: int| 0 <= x < old(self).len() && x != parent.0 ==> #[trigger] final(self).kid(x) == old(self).kid(x),
            forall|x: int|
                0 <= x < old(self).len() && !r@.contains(NodeId(x as usize)) ==> #[trigger] final(self).sib(x) == old(self).sib(x),
            forall|x: int| 0 <= x < old(self).len() ==> #[trigger] final(self).par(x) == old(self).par(x),
    {
        let ghost t0: Tree = *self;
        let v = self.iter_children(parent);
        proof {
            t0.lemma_children_valid_pub(parent.0 as int);
        }
        if v.len() == 0 {
            return v;
        }
        proof {
            t0.lemma_kid_target_only(parent.0 as int);
        }
        self.set_child(parent, None);
        let ghost t1: Tree = *self;
        proof {
            let h = t0.kid(parent.0 as int).unwrap();
            t0.lemma_succ_step(h.0 as int);
        }
        let mut i: usize = 0;
        while i + 1 < v.len()
            invariant
                self.wf(),
                t0.wf(),
                self.len() == t0.len(),
                self.root == t0.root,
                v@ == t0.children(parent.0 as int),
                v@.no_duplicates(),
                v@.len() >= 1,
                t0.valid(parent),
                t0.kid(parent.0 as int) == Some(v@[0]),
                v@ == t0.chain(v@[0].0 as int),
                forall|k: int| 0 <= k < v@.len() ==> t0.valid(#[trigger] v@[k]),
                i + 1 <= v.len(),
                self.kid(parent.0 as int) is None,
                forall|k: int| 0 <= k <= i ==> self.unlinked(#[trigger] v@[k]),
                forall|k: int| 0 <= k < i ==> self.sib((#[trigger] v@[k]).0 as int) is None,
                forall|k: int| i <= k < v@.len() ==> #[trigger] self.succ@[v@[k].0 as int] == t0.succ@[v@[k].0 as int],
                forall|k: int| i <= k < v@.len() ==> #[trigger] self.sib(v@[k].0 as int) == t0.sib(v@[k].0 as int),
                forall|x: int| 0 <= x < self.len() ==> #[trigger] self.par(x) == t0.par(x),
                forall|x: int| 0 <= x < self.len() ==> #[trigger] self.kid(x) == t0.kid(x) || x == parent.0,
                forall|x: int| 0 <= x < self.len() ==> #[trigger] self.sib(x) == t0.sib(x) || v@.contains(NodeId(x as usize)),
            decreases v.len() - i,
        {
            let ghost before: Tree = *self;
            let c = v[i];
            proof {
                let h = t0.kid(parent.0 as int).unwrap();
                if i == 0 {
                    t0.lemma_succ_step(h.0 as int);
                    assert(v@[1] == t0.succ@[h.0 as int][0]);
                    t0.lemma_succ_linked(h.0 as int, 0);
                    assert(t0.sib(c.0 as int) == Some(v@[1]));
                } else {
                    t0.lemma_succ_linked(h.0 as int, i as int);
                    assert(v@[i + 1] == t0.succ@[h.0 as int][i as int]);
                    assert(c == t0.succ@[h.0 as int][i - 1]);
                }
                assert(self.sib(c.0 as int) == Some(v@[i + 1]));
                self.lemma_sib_target_only(c.0 as int);
            }
            self.pop_sibling(c);
            proof {
                assert(self.kid(parent.0 as int) == before.kid(parent.0 as int));
                let nx = v@[i + 1];
                assert(self.unlinked(nx));
                assert forall|k: int| i + 1 <= k < v@.len() implies #[trigger] self.succ@[v@[k].0 as int]
                    == t0.succ@[v@[k].0 as int] by {
                    let y = v@[k];
                    before.lemma_succ_step(y.0 as int);
                    t0.lemma_succ_distinct(t0.kid(parent.0 as int).unwrap().0 as int);
                    if before.succ@[y.0 as int].contains(c) {
                        let w = choose|w: int| 0 <= w < before.succ@[y.0 as int].len() && before.succ@[y.0 as int][w] == c;
                        let h = t0.kid(parent.0 as int).unwrap();
                        t0.lemma_succ_skip(h.0 as int, k - 1);
                        assert(t0.succ@[h.0 as int].skip(k) == t0.succ@[y.0 as int]);
                        assert(t0.succ@[h.0 as int][k + w] == c);
                        assert(t0.succ@[h.0 as int][i - 1] == c || i == 0);
                        if i == 0 {
                            assert(c == h);
                            assert(t0.chain(h.0 as int)[k + w + 1] == h);
                        }
                    }
                }
                assert forall|k: int| 0 <= k <= i + 1 implies self.unlinked(#[trigger] v@[k]) by {
                    if k <= i {
                        assert(before.unlinked(v@[k]));
                    }
                }
            }
            i = i + 1;
        }
        proof {
            let l = v@[v@.len() - 1];
            let h = t0.kid(parent.0 as int).unwrap();
            t0.lemma_last_of_chain(h.0 as int);
            assert(t0.chain(h.0 as int).last() == l);
            assert forall|d: NodeId| t0.valid(d) && #[trigger] t0.detached(d) implies self.detached(d) by {
                assert(!v@.contains(d)) by {
                    if v@.contains(d) {
                        let k = choose|k: int| 0 <= k < v@.len() && v@[k] == d;
                        if k == 0 {
                            assert(t0.kid(parent.0 as int) == Some(d));
                        } else {
                            t0.lemma_succ_linked(h.0 as int, k - 1);
                            t0.lemma_succ_step(h.0 as int);
                            if k - 1 > 0 {
                                assert(t0.valid(t0.succ@[h.0 as int][k - 2]));
                            }
                        }
                    }
                }
                assert forall|x: int| 0 <= x < self.len() implies self.sib(x) != Some(d) && self.kid(x) != Some(d) by {
                    if self.sib(x) == Some(d) && self.sib(x) != t0.sib(x) {
                        let k = choose|k: int| 0 <= k < v@.len() && v@[k] == NodeId(x as usize);
                    }
                }
            }
        }
        v
    }
}

impl Tree {
    /// Puts `new_parent` in the place of `node` among the children of
    /// `node`'s parent, and makes `node` the only child of `new_parent`.
    pub fn push_parent(&mut self, node: NodeId, new_parent: NodeId)
        requires
            old(self).wf(),
            old(self).valid(node),
            old(self).valid(new_parent),
            node != new_parent,
            old(self).detached(new_parent),
            old(self).kid(new_parent.0 as int) is None,
            old(self).listed(node.0 as int),
            !old(self).children(old(self).par(node.0 as int).unwrap().0 as int).contains(
                old(self).par(node.0 as int).unwrap(),
            ),
        ensures
            final(self).wf(),
            final(self).len() == old(self).len(),
            final(self).root == old(self).root,
            ({
                let p = old(self).par(node.0 as int).unwrap();
                let c = old(self).children(p.0 as int);
                &&& final(self).children(p.0 as int) == c.update(c.index_of(node), new_parent)
                &&& final(self).par(new_parent.0 as int) == Some(p)
            }),
            final(self).children(new_parent.0 as int) == seq![node],
            final(self).par(node.0 as int) == Some(new_parent),
    {
        let ghost t0: Tree = *self;
        let p = self.edges[node.0].parent.unwrap();
        let ghost c = t0.children(p.0 as int);
        let ghost at = c.index_of(node);
        proof {
            t0.lemma_children_valid_pub(p.0 as int);
            assert(c[at] == node);
            assert(!c.contains(new_parent)) by {
                if c.contains(new_parent) {
                    let k = choose|k: int| 0 <= k < c.len() && c[k] == new_parent;
                    let h = t0.kid(p.0 as int).unwrap();
                    if k > 0 {
                        t0.lemma_succ_linked(h.0 as int, k - 1);
                        t0.lemma_succ_step(h.0 as int);
                        if k - 1 > 0 {
                            assert(t0.valid(t0.succ@[h.0 as int][k - 2]));
                        }
                    }
                }
            }
            assert(p != new_parent);
        }
        let kids = self.detach_children(p);
        let mut i: usize = 0;
        assert(kids@.take(0) =~= Seq::<NodeId>::empty());
        while i < kids.len()
            invariant
                self.wf(),
                self.len() == t0.len(),
                self.root == t0.root,
                kids@ == c,
                c.no_duplicates(),
                0 <= at < c.len(),
                c[at] == node,
                !c.contains(p),
                !c.contains(new_parent),
                self.valid(p),
                self.valid(new_parent),
                p != new_parent,
                forall|k: int| 0 <= k < c.len() ==> self.valid(#[trigger] c[k]),
                forall|k: int| i <= k < c.len() ==> self.detached(#[trigger] c[k]),
                i > at ==> self.detached(node),
                i <= at ==> self.detached(new_parent),
                i > at ==> self.par(new_parent.0 as int) == Some(p),
                i <= at ==> self.children(p.0 as int) == c.take(i as int),
                i > at ==> self.children(p.0 as int) == c.take(i as int).update(at, new_parent),
                self.kid(new_parent.0 as int) is None,
                i <= kids.len(),
            decreases kids.len() - i,
        {
            let x = kids[i];
            let ghost before: Tree = *self;
            if x == node {
                self.attach_child(p, new_parent);
                proof {
                    assert(c.take(i + 1).update(at, new_parent) =~= c.take(i as int).push(new_parent));
                }
            } else {
                self.attach_child(p, x);
                proof {
                    if i > at {
                        assert(c.take(i + 1).update(at, new_parent) =~= c.take(i as int).update(at, new_parent).push(x));
                    } else {
                        assert(c.take(i + 1) =~= c.take(i as int).push(x));
                    }
                }
            }
            proof {
                assert forall|k: int| i + 1 <= k < c.len() implies self.detached(#[trigger] c[k]) by {
                    assert(before.detached(c[k]));
                    assert(c[k] != x);
                    assert(c[k] != new_parent);
                }
                if i + 1 <= at {
                    assert(before.detached(new_parent));
                }
                if i > at {
                    assert(before.detached(node));
                    assert(x != node);
                } else if i == at {
                    assert(before.detached(node));
                    assert(node != new_parent);
                }
            }
            i = i + 1;
        }
        proof {
            assert(c.take(c.len() as int) =~= c);
        }
        self.attach_child(new_parent, node);
    }
}

/// `n` and then its ancestors, nearest first, over at most `fuel` nodes.
pub open spec fn ascendants(t: Tree, n: NodeId, fuel: nat) -> Seq<NodeId>
    decreases fuel,
{
    if fuel == 0 {
        Seq::empty()
    } else {
        seq![n] + match t.par(n.0 as int) {
            None => Seq::<NodeId>::empty(),
            Some(p) => ascendants(t, p, (fuel - 1) as nat),
        }
    }
}

/// Breadth-first order from the nodes of `queue`, over at most `fuel` nodes.
pub open spec fn breadth_first(t: Tree, queue: Seq<NodeId>, fuel: nat) -> Seq<NodeId>
    decreases fuel,
{
    if fuel == 0 || queue.len() == 0 {
        Seq::empty()
    } else {
        seq![queue[0]] + breadth_first(t, queue.drop_first() + t.children(queue[0].0 as int), (fuel - 1) as nat)
    }
}

impl Tree {
    /// `from` and then its ancestors, nearest first.
    pub fn walk_ascendants(&self, from: NodeId) -> (r: Vec<NodeId>)
        requires
            self.wf(),
            self.valid(from),
        ensures
            r@ == ascendants(*self, from, self.len() as nat),
    {
        let mut r: Vec<NodeId> = Vec::new();
        let mut cur = from;
        let mut fuel = self.edges.len();
        assert(r@ + ascendants(*self, cur, fuel as nat) =~= ascendants(*self, from, self.len() as nat));
        while fuel > 0
            invariant
                self.wf(),
                self.valid(cur),
                r@ + ascendants(*self, cur, fuel as nat) == ascendants(*self, from, self.len() as nat),
            decreases fuel,
        {
            let ghost before = r@;
            r.push(cur);
            match self.edges[cur.0].parent {
                None => {
                    assert(r@ =~= before + ascendants(*self, cur, fuel as nat));
                    assert(r@ + ascendants(*self, cur, 0) =~= r@);
                    return r;
                },
                Some(p) => {
                    assert(r@ + ascendants(*self, p, (fuel - 1) as nat) =~= before + ascendants(
                        *self,
                        cur,
                        fuel as nat,
                    ));
                    cur = p;
                    fuel = fuel - 1;
                },
            }
        }
        assert(r@ + ascendants(*self, cur, 0) =~= r@);
        r
    }

    /// Breadth-first walk of the subtree at `from`.
    pub fn walk_from(&self, from: NodeId) -> (r: Vec<NodeId>)
        requires
            self.wf(),
            self.valid(from),
        ensures
            r@ == breadth_first(*self, seq![from], self.len() as nat),
    {
        let mut queue: Vec<NodeId> = Vec::new();
        queue.push(from);
        let mut head: usize = 0;
        let mut out: Vec<NodeId> = Vec::new();
        let mut fuel = self.edges.len();
        assert(queue@.skip(0) =~= seq![from]);
        assert(out@ + breadth_first(*self, queue@.skip(0), fuel as nat) =~= breadth_first(
            *self,
            seq![from],
            self.len() as nat,
        ));
        while fuel > 0 && head < queue.len()
            invariant
                self.wf(),
                head <= queue@.len(),
                forall|k: int| 0 <= k < queue@.len() ==> self.valid(#[trigger] queue@[k]),
                out@ + breadth_first(*self, queue@.skip(head as int), fuel as nat) == breadth_first(
                    *self,
                    seq![from],
                    self.len() as nat,
                ),
                out@.len() + fuel <= self.len(),
            decreases fuel,
        {
            let n = queue[head];
            let ghost q0 = queue@;
            let ghost o0 = out@;
            out.push(n);
            let kids = self.iter_children(n);
            proof {
                self.lemma_children_valid_pub(n.0 as int);
            }
            let mut i: usize = 0;
            while i < kids.len()
                invariant
                    self.wf(),
                    kids@ == self.children(n.0 as int),
                    forall|k: int| 0 <= k < kids@.len() ==> self.valid(#[trigger] kids@[k]),
                    i <= kids.len(),
                    queue@ == q0 + kids@.take(i as int),
                    forall|k: int| 0 <= k < queue@.len() ==> self.valid(#[trigger] queue@[k]),
                decreases kids.len() - i,
            {
                let ghost qb = queue@;
                queue.push(kids[i]);
                assert(queue@ =~= q0 + kids@.take(i + 1)) by {
                    assert(kids@.take(i + 1) =~= kids@.take(i as int).push(kids@[i as int]));
                }
                i = i + 1;
            }
            proof {
                assert(kids@.take(kids@.len() as int) =~= kids@);
                assert(q0.skip(head as int)[0] == n);
                assert(q0.skip(head as int).drop_first() + self.children(n.0 as int) =~= queue@.skip(head + 1));
                assert(out@ + breadth_first(*self, queue@.skip(head + 1), (fuel - 1) as nat) =~= o0
                    + breadth_first(*self, q0.skip(head as int), fuel as nat));
            }
            head = head + 1;
            fuel = fuel - 1;
        }
        proof {
            assert(breadth_first(*self, queue@.skip(head as int), fuel as nat) =~= Seq::<NodeId>::empty());
            assert(out@ =~= out@ + Seq::<NodeId>::empty());
        }
        out
    }

    /// Breadth-first walk of the whole tree from its root.
    pub fn walk(&self) -> (r: Vec<NodeId>)
        requires
            self.wf(),
        ensures
            match self.root {
                None => r@.len() == 0,
                Some(root) => r@ == breadth_first(*self, seq![root], self.len() as nat),
            },
    {
        match self.root {
            None => Vec::new(),
            Some(root) => self.walk_from(root),
        }
    }
}

impl Tree {
    /// Splits the children of `parent` at `target`: the chain is cut after
    /// `target` (`After`) or before it (`Before`). Returns `None`, changing
    /// nothing, when `target` is not a child of `parent` or nothing follows
    /// the cut. The cut-off part is not re-parented.
    pub fn split_children_at(&mut self, parent: NodeId, target: NodeId, mode: SplitMode) -> (r: Option<Split>)
        requires
            old(self).wf(),
            old(self).valid(parent),
        ensures
            final(self).wf(),
            final(self).len() == old(self).len(),
            final(self).root == old(self).root,
            ({
                let c = old(self).children(parent.0 as int);
                let b = split_point(c.index_of(target), mode);
                if c.contains(target) && 0 <= b < c.len() - 1 {
                    &&& r == Some(Split { left: c[b], right: c[b + 1] })
                    &&& final(self).children(parent.0 as int) == c.take(b + 1)
                    &&& final(self).edges@ == old(self).edges@.update(
                        c[b].0 as int,
                        TreeEdges { sibling: None, ..old(self).edges@[c[b].0 as int] },
                    )
                } else {
                    &&& r is None
                    &&& final(self).edges@ == old(self).edges@
                    &&& final(self).succ@ == old(self).succ@
                }
            }),
    {
        let ghost t0: Tree = *self;
        let ghost c = t0.children(parent.0 as int);
        let v = self.iter_children(parent);
        proof {
            self.lemma_children_valid_pub(parent.0 as int);
        }
        let mut i: usize = 0;
        while i < v.len()
            invariant
                v@ == c,
                *self == t0,
                i <= v.len(),
                forall|j: int| 0 <= j < i ==> v@[j] != target,
            ensures
                i <= v.len(),
                forall|j: int| 0 <= j < i ==> v@[j] != target,
                i < v.len() ==> v@[i as int] == target,
            decreases v.len() - i,
        {
            if v[i] == target {
                break;
            }
            i = i + 1;
        }
        if i == v.len() {
            return None;
        }
        proof {
            assert(c.contains(target));
            assert(c[c.index_of(target)] == target);
            assert(c.index_of(target) == i) by {
                if c.index_of(target) != i {
                    assert(c.no_duplicates());
                }
            }
        }
        let b: usize = match mode {
            SplitMode::After => i,
            SplitMode::Before => {
                if i == 0 {
                    return None;
                }
                i - 1
            },
        };
        if b + 1 >= v.len() {
            return None;
        }
        let left = v[b];
        proof {
            let h = t0.kid(parent.0 as int).unwrap();
            t0.lemma_succ_step(h.0 as int);
            if b == 0 {
                t0.lemma_succ_linked(h.0 as int, 0);
            } else {
                t0.lemma_succ_linked(h.0 as int, b as int);
                assert(v@[b as int + 1] == t0.succ@[h.0 as int][b as int]);
                assert(left == t0.succ@[h.0 as int][b - 1]);
            }
        }
        let right = self.pop_sibling(left);
        proof {
            Tree::lemma_children_cut(&t0, self, parent.0 as int, b as int);
            assert(self.edges@ =~= t0.edges@.update(
                left.0 as int,
                TreeEdges { sibling: None, ..t0.edges@[left.0 as int] },
            ));
        }
        Some(Split { left, right: right.unwrap() })
    }
}

impl Tree {
    /// Inserts `new_sibling` right after `node`; the former rest of `node`'s
    /// chain follows `new_sibling`, and `new_sibling` and every node of that
    /// rest take `node`'s parent.
    pub fn push_sibling(&mut self, node: NodeId, new_sibling: NodeId)
        requires
            old(self).wf(),
            old(self).valid(node),
            old(self).valid(new_sibling),
            node != new_sibling,
            old(self).sib(new_sibling.0 as int) is None,
            old(self).unlinked(new_sibling),
        ensures
            final(self).wf(),
            final(self).len() == old(self).len(),
            final(self).root == old(self).root,
            final(self).chain(node.0 as int) == seq![node, new_sibling] + old(self).succs(node.0 as int),
            final(self).par(new_sibling.0 as int) == old(self).par(node.0 as int),
            forall|k: int|
                0 <= k < old(self).succs(node.0 as int).len() ==> final(self).par(
                    (#[trigger] old(self).succs(node.0 as int)[k]).0 as int,
                ) == old(self).par(node.0 as int),
            forall|x: int|
                0 <= x < old(self).len() && x != node.0 && x != new_sibling.0 && !old(self).succs(
                    node.0 as int,
                ).contains(NodeId(x as usize)) ==> #[trigger] final(self).edges@[x] == old(self).edges@[x],
            forall|x: int| 0 <= x < old(self).len() ==> #[trigger] final(self).kid(x) == old(self).kid(x),
            forall|x: int| 0 <= x < old(self).len() && x != node.0 ==> #[trigger] final(self).sib(x) == old(self).sib(x) || x == new_sibling.0,
            final(self).succ@ == relink(
                old(self).succ@.update(new_sibling.0 as int, old(self).succ@[node.0 as int]),
                node,
                seq![new_sibling] + old(self).succ@[node.0 as int],
            ),
    {
        let ghost t0: Tree = *self;
        let parent = self.edges[node.0].parent;
        let tail = match self.edges[node.0].sibling {
            Some(o) => self.iter_siblings(o),
            None => Vec::new(),
        };
        proof {
            t0.lemma_succ_step(node.0 as int);
            t0.lemma_succ_distinct(node.0 as int);
            assert(tail@ == t0.succs(node.0 as int));
            t0.lemma_unlinked_not_in_succ(new_sibling);
            assert(!tail@.contains(new_sibling));
            assert(!tail@.contains(node));
        }
        self.insert_after(node, new_sibling);
        let ghost t1: Tree = *self;
        let mut i: usize = 0;
        while i < tail.len()
            invariant
                self.wf(),
                t1.wf(),
                t0.wf(),
                self.len() == t0.len(),
                self.root == t0.root,
                self.succ@ == t1.succ@,
                tail@ == t0.succs(node.0 as int),
                tail@.no_duplicates(),
                !tail@.contains(new_sibling),
                !tail@.contains(node),
                link_ok(parent, t0.len()),
                parent == t0.par(node.0 as int),
                i <= tail.len(),
                forall|k: int| 0 <= k < tail@.len() ==> (#[trigger] tail@[k]).0 < t0.len(),
                forall|k: int| 0 <= k < i ==> self.par((#[trigger] tail@[k]).0 as int) == parent,
                forall|x: int|
                    0 <= x < t0.len() && !tail@.take(i as int).contains(NodeId(x as usize)) ==> #[trigger] self.edges@[x]
                        == t1.edges@[x],
                forall|x: int| 0 <= x < t0.len() ==> #[trigger] self.kid(x) == t1.kid(x) && self.sib(x) == t1.sib(x),
            decreases tail.len() - i,
        {
            let ghost before: Tree = *self;
            let x = tail[i];
            self.set_parent(x, parent);
            proof {
                assert forall|k: int| 0 <= k < i + 1 implies self.par((#[trigger] tail@[k]).0 as int) == parent by {
                    if k < i {
                        assert(tail@[k] != x);
                    }
                }
                assert forall|y: int|
                    0 <= y < t0.len() && !tail@.take(i + 1).contains(NodeId(y as usize)) implies #[trigger] self.edges@[y]
                        == t1.edges@[y] by {
                    assert(tail@.take(i + 1)[i as int] == x);
                    if tail@.take(i as int).contains(NodeId(y as usize)) {
                        let w = choose|w: int| 0 <= w < i && tail@.take(i as int)[w] == NodeId(y as usize);
                        assert(tail@.take(i + 1)[w] == NodeId(y as usize));
                    }
                }
            }
            i = i + 1;
        }
        proof {
            assert(tail@.take(tail@.len() as int) =~= tail@);
            assert(self.chain(node.0 as int) == t1.chain(node.0 as int));
            assert(self.edges@[new_sibling.0 as int] == t1.edges@[new_sibling.0 as int]);
            assert forall|x: int|
                0 <= x < t0.len() && x != node.0 && x != new_sibling.0 && !t0.succs(node.0 as int).contains(
                    NodeId(x as usize),
                ) implies #[trigger] self.edges@[x] == t0.edges@[x] by {
                assert(self.edges@[x] == t1.edges@[x]);
            }
        }
    }
}

impl Tree {
    /// `insert_after(prev, new)` keeps the children of any node whose
    /// children hold neither `prev` nor `new`.
    pub proof fn lemma_insert_after_children(ta: &Tree, tb: &Tree, prev: NodeId, new: NodeId, q: int)
        requires
            ta.wf(),
            0 <= q < ta.len(),
            ta.valid(prev),
            ta.valid(new),
            tb.len() == ta.len(),
            forall|x: int| 0 <= x < ta.len() ==> #[trigger] tb.kid(x) == ta.kid(x),
            tb.succ@ == relink(ta.succ@.update(new.0 as int, ta.succ@[prev.0 as int]), prev, seq![new] + ta.succ@[prev.0 as int]),
            !ta.children(q).contains(prev),
            !ta.children(q).contains(new),
        ensures
            tb.children(q) == ta.children(q),
    {
        if let Some(h) = ta.kid(q) {
            assert(ta.children(q)[0] == h);
            ta.lemma_succ_step(h.0 as int);
            assert(!ta.succ@[h.0 as int].contains(prev)) by {
                if ta.succ@[h.0 as int].contains(prev) {
                    let w = choose|w: int| 0 <= w < ta.succ@[h.0 as int].len() && ta.succ@[h.0 as int][w] == prev;
                    assert(ta.children(q)[w + 1] == prev);
                }
            }
            assert(tb.succ@[h.0 as int] == ta.succ@[h.0 as int]);
        }
    }
}

} // verus!
