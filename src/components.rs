//! Component store: binds an entity to one value, through an index of slots
//! so that two entities can share (alias) one value.
use vstd::prelude::*;
use crate::tree::NodeId;

verus! {

/// Values bound to entities. `index[e]` is the slot of entity `e`; several
/// entities may share a slot.
pub struct Components<C> {
    pub index: Vec<Option<usize>>,
    pub slots: Vec<C>,
}

impl<C: Copy> Components<C> {
    pub open spec fn wf(&self) -> bool {
        forall|e: int|
            0 <= e < self.index@.len() && (#[trigger] self.index@[e]) is Some ==> self.index@[e].unwrap()
                < self.slots@.len()
    }

    /// The slot of entity `e`, if bound.
    pub open spec fn slot(&self, e: NodeId) -> Option<usize> {
        if e.0 < self.index@.len() {
            self.index@[e.0 as int]
        } else {
            None
        }
    }

    /// The value bound to `e`, if any.
    pub open spec fn get(&self, e: NodeId) -> Option<C> {
        match self.slot(e) {
            Some(s) => Some(self.slots@[s as int]),
            None => None,
        }
    }

    pub fn new() -> (r: Components<C>)
        ensures
            r.wf(),
            forall|e: NodeId| r.get(e) is None,
            forall|e: NodeId| r.slot(e) is None,
            r.slots@.len() == 0,
    {
        Components { index: Vec::new(), slots: Vec::new() }
    }

    /// Whether a value is bound to `e`.
    pub fn is_bound(&self, e: NodeId) -> (r: bool)
        requires
            self.wf(),
        ensures
            r == self.get(e) is Some,
    {
        e.0 < self.index.len() && self.index[e.0].is_some()
    }

    /// The value bound to `e`.
    pub fn borrow(&self, e: NodeId) -> (r: Option<&C>)
        requires
            self.wf(),
        ensures
            match r {
                Some(v) => self.get(e) == Some(*v),
                None => self.get(e) is None,
            },
    {
        if e.0 < self.index.len() {
            match self.index[e.0] {
                Some(s) => Some(&self.slots[s]),
                None => None,
            }
        } else {
            None
        }
    }

    fn grow(&mut self, e: NodeId)
        requires
            old(self).wf(),
        ensures
            final(self).wf(),
            final(self).index@.len() > e.0,
            final(self).slots@ == old(self).slots@,
            forall|x: NodeId| #[trigger] final(self).slot(x) == old(self).slot(x),
    {
        while self.index.len() <= e.0
            invariant
                self.wf(),
                self.slots@ == old(self).slots@,
                forall|x: NodeId| #[trigger] self.slot(x) == old(self).slot(x),
            decreases e.0 + 1 - self.index.len(),
        {
            let ghost prev: Components<C> = *self;
            self.index.push(None);
            assert forall|x: NodeId| #[trigger] self.slot(x) == old(self).slot(x) by {
                assert(prev.slot(x) == old(self).slot(x));
                if x.0 < prev.index@.len() {
                    assert(self.index@[x.0 as int] == prev.index@[x.0 as int]);
                }
            }
        }
    }

    /// Binds `c` to `e`. When `e` already has a slot its value is replaced,
    /// which every entity sharing that slot then reads.
    pub fn bind(&mut self, e: NodeId, c: C)
        requires
            old(self).wf(),
            old(self).slots@.len() < usize::MAX,
        ensures
            final(self).wf(),
            final(self).get(e) == Some(c),
            final(self).slot(e) is Some,
            final(self).slots@.len() <= old(self).slots@.len() + 1,
            old(self).slot(e) is Some ==> final(self).slots@.len() == old(self).slots@.len(),
            forall|x: NodeId| x != e ==> #[trigger] final(self).slot(x) == old(self).slot(x),
            forall|x: NodeId|
                #![trigger final(self).get(x)]
                x != e ==> if old(self).slot(e) is Some && old(self).slot(x) == old(self).slot(e) {
                    final(self).get(x) == Some(c)
                } else {
                    final(self).get(x) == old(self).get(x)
                },
            old(self).slot(e) is Some ==> forall|x: NodeId| #[trigger] final(self).slot(x) == old(self).slot(x),
    {
        self.grow(e);
        let ghost grown: Components<C> = *self;
        match self.index[e.0] {
            Some(s) => {
                self.slots[s] = c;
                assert(grown.slot(e) == old(self).slot(e));
                assert forall|x: NodeId| x != e implies #[trigger] self.slot(x) == old(self).slot(x) by {
                    assert(grown.slot(x) == old(self).slot(x));
                }
                assert forall|x: NodeId| #[trigger] self.slot(x) == old(self).slot(x) by {
                    assert(grown.slot(x) == old(self).slot(x));
                }
                assert forall|x: NodeId| x != e implies #[trigger] self.get(x) == (if old(self).slot(x) == old(self).slot(e) {
                    Some(c)
                } else {
                    old(self).get(x)
                }) by {
                    assert(grown.slot(x) == old(self).slot(x));
                }
            },
            None => {
                let s = self.slots.len();
                self.slots.push(c);
                self.index[e.0] = Some(s);
                assert forall|x: NodeId| x != e implies #[trigger] self.get(x) == old(self).get(x) by {
                    assert(grown.slot(x) == old(self).slot(x));
                    if x.0 < self.index@.len() {
                        assert(self.index@[x.0 as int] == grown.index@[x.0 as int]);
                    }
                }
                assert(grown.slot(e) == old(self).slot(e));
                assert forall|x: NodeId| x != e implies #[trigger] self.slot(x) == old(self).slot(x) by {
                    assert(grown.slot(x) == old(self).slot(x));
                }
            },
        }
    }

    /// Binds `C`'s default value to `e`, as `bind` does.
    pub fn bind_default(&mut self, e: NodeId)
        where C: Default
        requires
            old(self).wf(),
            old(self).slots@.len() < usize::MAX,
        ensures
            final(self).wf(),
            final(self).get(e) is Some,
            forall|x: NodeId|
                #![trigger final(self).get(x)]
                x != e && !(old(self).slot(e) is Some && old(self).slot(x) == old(self).slot(e))
                    ==> final(self).get(x) == old(self).get(x),
            forall|x: NodeId| x != e ==> #[trigger] final(self).slot(x) == old(self).slot(x),
    {
        self.bind(e, C::default());
    }

    /// Makes `e` read and write the value of `from` (both then share one slot).
    pub fn share_from(&mut self, e: NodeId, from: NodeId)
        requires
            old(self).wf(),
            old(self).get(from) is Some,
        ensures
            final(self).wf(),
            final(self).slots@ == old(self).slots@,
            final(self).slot(e) == old(self).slot(from),
            final(self).get(e) == old(self).get(from),
            forall|x: NodeId| x != e ==> #[trigger] final(self).slot(x) == old(self).slot(x),
    {
        self.grow(e);
        let ghost grown: Components<C> = *self;
        assert(grown.slot(from) == old(self).slot(from));
        let s = self.index[from.0];
        self.index[e.0] = s;
        assert forall|x: NodeId| x != e implies #[trigger] self.slot(x) == old(self).slot(x) by {
            assert(grown.slot(x) == old(self).slot(x));
        }
    }

    /// Binds a copy of the value of `src` to `to`; does nothing when `src` is unbound.
    pub fn clone_component(&mut self, src: NodeId, to: NodeId)
        requires
            old(self).wf(),
            old(self).slots@.len() < usize::MAX,
        ensures
            final(self).wf(),
            old(self).get(src) is Some ==> final(self).get(to) == old(self).get(src),
            forall|x: NodeId|
                #![trigger final(self).get(x)]
                x != to && !(old(self).slot(to) is Some && old(self).slot(x) == old(self).slot(to))
                    ==> final(self).get(x) == old(self).get(x),
            old(self).get(src) is None ==> final(self).index@ == old(self).index@ && final(self).slots@ == old(self).slots@,
    {
        let v = match self.borrow(src) {
            Some(r) => Some(*r),
            None => None,
        };
        match v {
            Some(c) => self.bind(to, c),
            None => {},
        }
    }
}

} // verus!
