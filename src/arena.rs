//! Storage of fragment kinds in a `pb_arena` arena.
use vstd::prelude::*;
use crate::fragment_tree::FragmentKind;

verus! {

#[verifier::external_type_specification]
#[verifier::external_body]
#[verifier::reject_recursive_types(T)]
pub struct ExArena<T: Sized>(pb_arena::Arena<T>);

#[verifier::external_type_specification]
#[verifier::external_body]
pub struct ExArenaId(pb_arena::ArenaId);

/// An arena of fragment kinds.
pub type KindArena = pb_arena::Arena<FragmentKind>;

/// An id in such an arena.
pub type KindId = pb_arena::ArenaId;

/// The kinds that an arena holds, by id.
pub uninterp spec fn arena_kinds(a: KindArena) -> Map<KindId, FragmentKind>;

/// The block size that an arena was made with.
pub uninterp spec fn arena_block_size(a: KindArena) -> nat;

/// Relies on `pb_arena::Arena::new`: a new arena holds nothing and keeps
/// the block size it is given.
#[verifier::external_body]
fn new_kind_arena(block_size: usize) -> (r: KindArena)
    requires
        0 < block_size <= 4096,
    ensures
        arena_kinds(r).dom().is_empty(),
        arena_block_size(r) == block_size,
{
    pb_arena::Arena::new(block_size)
}

/// Relies on `pb_arena::Arena::alloc`: the value is stored under an id
/// that the arena did not hold; nothing else changes. With a block size of
/// zero a new bucket would underflow `size - 1`, hence the `requires`.
#[verifier::external_body]
fn alloc_kind(a: &mut KindArena, kind: FragmentKind) -> (id: KindId)
    requires
        arena_block_size(*old(a)) > 0,
    ensures
        !arena_kinds(*old(a)).contains_key(id),
        arena_kinds(*final(a)) == arena_kinds(*old(a)).insert(id, kind),
        arena_block_size(*final(a)) == arena_block_size(*old(a)),
{
    a.alloc(kind)
}

/// Relies on `pb_arena::Arena::borrow`: an id that the arena holds gives
/// its value unless a mutable borrow of that cell is alive. The only arena
/// this is called on is the private one of a `KindStore`, on which nothing
/// ever takes a mutable borrow.
#[verifier::external_body]
fn kind_at(a: &KindArena, id: KindId) -> (r: Option<FragmentKind>)
    ensures
        arena_kinds(*a).contains_key(id) ==> r == Some(arena_kinds(*a)[id]),
{
    a.borrow(id).map(|k| *k)
}

/// Block size of the arena of a `KindStore`.
pub const KIND_BLOCK_SIZE: usize = 100;

/// A sequence of fragment kinds, kept in a private arena: the i-th kind is
/// stored under `ids[i]`.
pub struct KindStore {
    arena: KindArena,
    ids: Vec<KindId>,
}

impl KindStore {
    /// The kinds, in order.
    pub closed spec fn view(&self) -> Seq<FragmentKind> {
        Seq::new(self.ids@.len(), |i: int| arena_kinds(self.arena)[self.ids@[i]])
    }

    pub closed spec fn wf(&self) -> bool {
        &&& arena_block_size(self.arena) > 0
        &&& forall|i: int| 0 <= i < self.ids@.len() ==> arena_kinds(self.arena).contains_key(#[trigger] self.ids@[i])
    }

    pub fn new() -> (r: KindStore)
        ensures
            r.wf(),
            r.view() == Seq::<FragmentKind>::empty(),
    {
        let r = KindStore { arena: new_kind_arena(KIND_BLOCK_SIZE), ids: Vec::new() };
        assert(r.view() =~= Seq::<FragmentKind>::empty());
        r
    }

    pub fn len(&self) -> (r: usize)
        ensures
            r == self.view().len(),
    {
        self.ids.len()
    }

    /// Appends `kind`.
    pub fn push(&mut self, kind: FragmentKind)
        requires
            old(self).wf(),
        ensures
            final(self).wf(),
            final(self).view() == old(self).view().push(kind),
    {
        let ghost ks = self.view();
        let ghost a0 = arena_kinds(self.arena);
        let id = alloc_kind(&mut self.arena, kind);
        self.ids.push(id);
        proof {
            assert forall|i: int| 0 <= i < self.ids@.len() implies arena_kinds(self.arena).contains_key(
                #[trigger] self.ids@[i],
            ) by {
                if i < self.ids@.len() - 1 {
                    assert(a0.contains_key(self.ids@[i]));
                }
            }
            assert(self.view() =~= ks.push(kind)) by {
                assert forall|i: int| 0 <= i < ks.len() implies self.view()[i] == ks[i] by {
                    assert(a0.contains_key(self.ids@[i]));
                    assert(self.ids@[i] != id);
                }
            }
        }
    }

    /// The `i`-th kind.
    pub fn get(&self, i: usize) -> (r: FragmentKind)
        requires
            self.wf(),
            i < self.view().len(),
        ensures
            r == self.view()[i as int],
    {
        kind_at(&self.arena, self.ids[i]).unwrap()
    }
}

} // verus!
