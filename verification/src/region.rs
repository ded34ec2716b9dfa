//! Shared ownership of state-tracked cells.
//!
//! A [`Region`] owns every cell that its handles refer to. An [`Imp`] names
//! one cell; any number of handles may name the same cell, and the region
//! counts them. Access to a cell's value goes through scoped tokens,
//! [`Ref`] and [`RefMut`], handed out and taken back by the operations
//! here: a token is not cloneable, so it can be released at most once, and
//! releasing consumes it.
//!
//! A cell is destroyed, and its value dropped, when the last handle naming
//! it is dropped. Its slot in the region is then vacated and never reused,
//! so distinct cells never answer to the same handle identity.

use vstd::prelude::*;

use crate::cell::DerefCell;
use crate::state::BorrowState;

verus! {

/// The specification-level picture of one slot of a region: how many
/// handles name it, how its value is borrowed, and the value itself
/// (`None` once the cell has been destroyed).
pub ghost struct SlotModel<T> {
    /// The number of live handles naming this cell.
    pub refs: nat,
    /// How the cell's value is currently borrowed.
    pub state: BorrowState,
    /// The value, while the cell is alive.
    pub value: Option<T>,
}

impl<T> SlotModel<T> {
    /// A slot is well formed when a live cell holds a value, a vacated
    /// slot holds none and is unborrowed, and the borrow state itself is
    /// well formed.
    pub open spec fn wf(self) -> bool {
        &&& self.state.wf()
        &&& self.refs == 0 ==> (self.value is None && self.state is Unborrowed)
        &&& self.refs > 0 ==> self.value is Some
    }

    /// The slot after one more shared token is handed out.
    pub open spec fn after_acquire_shared(self) -> Self {
        SlotModel { state: self.state.after_acquire_shared(), ..self }
    }

    /// The slot after one shared token is released.
    pub open spec fn after_release_shared(self) -> Self {
        SlotModel { state: self.state.after_release_shared(), ..self }
    }

    /// The slot after the exclusive token is handed out.
    pub open spec fn after_acquire_exclusive(self) -> Self {
        SlotModel { state: BorrowState::Exclusive, ..self }
    }

    /// The slot after the exclusive token is released.
    pub open spec fn after_release_exclusive(self) -> Self {
        SlotModel { state: BorrowState::Unborrowed, ..self }
    }

    /// The slot after its value is overwritten through the exclusive token.
    pub open spec fn written(self, x: T) -> Self {
        SlotModel { value: Some(x), ..self }
    }

    /// The slot after one more handle starts naming it.
    pub open spec fn after_clone(self) -> Self {
        SlotModel { refs: self.refs + 1, ..self }
    }

    /// The slot after one handle naming it is dropped: the cell and its
    /// value go away with the last handle.
    pub open spec fn after_drop(self) -> Self {
        if self.refs > 1 {
            SlotModel { refs: (self.refs - 1) as nat, ..self }
        } else {
            SlotModel { refs: 0, state: BorrowState::Unborrowed, value: None }
        }
    }
}

pub(crate) struct Slot<T> {
    pub(crate) refs: usize,
    pub(crate) cell: Option<DerefCell<T>>,
}

impl<T> Slot<T> {
    pub(crate) closed spec fn model(self) -> SlotModel<T> {
        match self.cell {
            Some(c) => SlotModel {
                refs: self.refs as nat,
                state: c.borrow_state(),
                value: Some(c.stored()),
            },
            None => SlotModel {
                refs: self.refs as nat,
                state: BorrowState::Unborrowed,
                value: None,
            },
        }
    }
}

/// The shared owner of any number of cells. Every handle and token
/// operation goes through the region that owns the cell.
pub struct Region<T> {
    pub(crate) slots: Vec<Slot<T>>,
}

/// A reference-counted handle to one cell of a region. Handles are not
/// cloneable by themselves: duplicating one goes through
/// [`Imp::clone_handle`], which counts it, and a handle is given up
/// through [`Imp::drop_handle`], which destroys the cell when the last
/// handle goes.
pub struct Imp {
    pub(crate) idx: usize,
}

/// A scoped token granting read-only access to a cell's value. Releasing
/// it consumes it, so it cannot be released twice.
pub struct Ref {
    pub(crate) idx: usize,
}

/// A scoped token granting read-write access to a cell's value. Releasing
/// it consumes it, so it cannot be released twice.
pub struct RefMut {
    pub(crate) idx: usize,
}

/// Well-formedness of a region survives any operation that leaves every
/// slot but one alone and leaves that one well formed.
pub proof fn lemma_wf_same_except<T>(pre: Region<T>, post: Region<T>, i: int)
    requires
        pre.wf(),
        pre.same_except(post, i),
        0 <= i < post.slot_count() ==> post.slot(i).wf(),
    ensures
        post.wf(),
{
    assert forall|j: int| 0 <= j < post.slot_count() implies (#[trigger] post.slot(j)).wf() by {
        if j != i {
            assert(pre.slot(j).wf());
        }
    }
}

/// Well-formedness of a region survives appending a well-formed slot.
pub proof fn lemma_wf_appended<T>(pre: Region<T>, post: Region<T>, m: SlotModel<T>)
    requires
        pre.wf(),
        pre.appended(post, m),
        m.wf(),
    ensures
        post.wf(),
{
    assert forall|j: int| 0 <= j < post.slot_count() implies (#[trigger] post.slot(j)).wf() by {
        if j < pre.slot_count() {
            assert(pre.slot(j).wf());
        }
    }
}

impl<T> Region<T> {
    /// The number of slots ever allocated, vacated ones included.
    pub closed spec fn slot_count(self) -> nat {
        self.slots@.len()
    }

    /// The model of slot `i`.
    pub closed spec fn slot(self, i: int) -> SlotModel<T> {
        self.slots@[i].model()
    }

    /// Slot `i` holds a live cell: some handle still names it.
    pub open spec fn live(self, i: int) -> bool {
        &&& 0 <= i < self.slot_count()
        &&& self.slot(i).refs > 0
    }

    /// The borrow state of slot `i`.
    pub open spec fn state_of(self, i: int) -> BorrowState {
        self.slot(i).state
    }

    /// The value held by slot `i`, `None` once the cell is destroyed.
    pub open spec fn value_of(self, i: int) -> Option<T> {
        self.slot(i).value
    }

    /// The number of live handles naming slot `i`.
    pub open spec fn refs_of(self, i: int) -> nat {
        self.slot(i).refs
    }

    /// The value held by slot `i`, which must be alive.
    pub open spec fn value_at(self, i: int) -> T {
        self.value_of(i)->Some_0
    }

    /// Every slot of the region is well formed.
    pub open spec fn wf(self) -> bool {
        forall|i: int| 0 <= i < self.slot_count() ==> (#[trigger] self.slot(i)).wf()
    }

    /// `post` agrees with this region on every slot: its cells hold the
    /// same values, borrowed and owned the same way.
    pub open spec fn same_slots(self, post: Region<T>) -> bool {
        &&& post.slot_count() == self.slot_count()
        &&& forall|j: int|
            0 <= j < self.slot_count() ==> #[trigger] post.slot(j) == self.slot(j)
    }

    /// `post` agrees with this region on every slot but `i`.
    pub open spec fn same_except(self, post: Region<T>, i: int) -> bool {
        &&& post.slot_count() == self.slot_count()
        &&& forall|j: int|
            0 <= j < self.slot_count() && j != i ==> #[trigger] post.slot(j) == self.slot(j)
    }

    /// `post` is this region with one more slot, modelled by `m`.
    pub open spec fn appended(self, post: Region<T>, m: SlotModel<T>) -> bool {
        &&& post.slot_count() == self.slot_count() + 1
        &&& post.slot(self.slot_count() as int) == m
        &&& forall|j: int|
            0 <= j < self.slot_count() ==> #[trigger] post.slot(j) == self.slot(j)
    }

    /// True exactly when `h` names a live cell of this region: its slot
    /// exists and at least one handle still owns it. Unlike the accessors
    /// this asks nothing of its caller, so unverified callers can test a
    /// handle before using it.
    pub fn is_live(&self, h: &Imp) -> (r: bool)
        ensures
            r == self.live(h.id()),
    {
        h.idx < self.slots.len() && self.slots[h.idx].refs > 0
    }

    /// A fresh region owning no cells.
    pub fn new() -> (r: Region<T>)
        ensures
            r.slot_count() == 0,
            r.wf(),
    {
        Region { slots: Vec::new() }
    }

    /// Takes back a shared token, undoing its acquisition: one fewer
    /// reader, `Unborrowed` when it was the last. Consuming the token
    /// here is what makes release-exactly-once a property of the type
    /// system rather than a convention.
    pub fn release_shared(&mut self, t: Ref)
        requires
            old(self).wf(),
            old(self).live(t.id()),
            old(self).state_of(t.id()) is Shared,
        ensures
            final(self).wf(),
            old(self).same_except(*final(self), t.id()),
            final(self).slot(t.id()) == old(self).slot(t.id()).after_release_shared(),
    {
        let idx = t.idx;
        let c = self.slots[idx].cell.as_mut().unwrap();
        c.end_shared();
        proof {
            assert(old(self).slot(t.id()).wf());
            lemma_wf_same_except(*old(self), *self, t.id());
        }
    }

    /// Takes back the exclusive token, returning the cell to `Unborrowed`.
    pub fn release_exclusive(&mut self, t: RefMut)
        requires
            old(self).wf(),
            old(self).live(t.id()),
            old(self).state_of(t.id()) is Exclusive,
        ensures
            final(self).wf(),
            old(self).same_except(*final(self), t.id()),
            final(self).slot(t.id()) == old(self).slot(t.id()).after_release_exclusive(),
    {
        let idx = t.idx;
        let c = self.slots[idx].cell.as_mut().unwrap();
        c.end_exclusive();
        proof {
            assert(old(self).slot(t.id()).wf());
            lemma_wf_same_except(*old(self), *self, t.id());
        }
    }
}

impl Imp {
    /// The identity of the cell this handle names. Two handles alias the
    /// same cell exactly when their identities agree.
    pub closed spec fn id(self) -> int {
        self.idx as int
    }

    /// Allocates a fresh cell holding `value` in `region`, unborrowed,
    /// with this handle as its only owner.
    pub fn new<T>(region: &mut Region<T>, value: T) -> (h: Imp)
        requires
            old(region).wf(),
        ensures
            final(region).wf(),
            h.id() == old(region).slot_count(),
            old(region).appended(
                *final(region),
                SlotModel { refs: 1, state: BorrowState::Unborrowed, value: Some(value) },
            ),
    {
        let idx = region.slots.len();
        region.slots.push(Slot { refs: 1, cell: Some(DerefCell::new(value)) });
        proof {
            lemma_wf_appended(
                *old(region),
                *region,
                SlotModel { refs: 1, state: BorrowState::Unborrowed, value: Some(value) },
            );
        }
        Imp { idx }
    }

    /// True exactly when the two handles name the same cell, whatever the
    /// two cells' values are.
    pub fn ptr_eq(this: &Imp, other: &Imp) -> (r: bool)
        ensures
            r == (this.id() == other.id()),
    {
        this.idx == other.idx
    }

    /// A new handle naming the same cell; the cell's value is not copied,
    /// only the handle count grows.
    pub fn clone_handle<T>(&self, region: &mut Region<T>) -> (h: Imp)
        requires
            old(region).wf(),
            old(region).live(self.id()),
            old(region).refs_of(self.id()) < usize::MAX,
        ensures
            final(region).wf(),
            h.id() == self.id(),
            old(region).same_except(*final(region), self.id()),
            final(region).slot(self.id()) == old(region).slot(self.id()).after_clone(),
    {
        let idx = self.idx;
        let n = region.slots[idx].refs;
        region.slots[idx].refs = n + 1;
        proof {
            assert(old(region).slot(self.id()).wf());
            lemma_wf_same_except(*old(region), *region, self.id());
        }
        Imp { idx }
    }

    /// Gives this handle up. While other handles still name the cell only
    /// the count drops; with the last handle the cell is destroyed and its
    /// value dropped, so nothing may be borrowed then.
    pub fn drop_handle<T>(self, region: &mut Region<T>)
        requires
            old(region).wf(),
            old(region).live(self.id()),
            old(region).refs_of(self.id()) > 1 || old(region).state_of(self.id())
                is Unborrowed,
        ensures
            final(region).wf(),
            old(region).same_except(*final(region), self.id()),
            final(region).slot(self.id()) == old(region).slot(self.id()).after_drop(),
    {
        let idx = self.idx;
        let n = region.slots[idx].refs;
        if n > 1 {
            region.slots[idx].refs = n - 1;
        } else {
            region.slots[idx].refs = 0;
            let _cell = region.slots[idx].cell.take();
        }
        proof {
            assert(old(region).slot(self.id()).wf());
            lemma_wf_same_except(*old(region), *region, self.id());
        }
    }

    /// The number of live handles naming this handle's cell.
    pub fn ref_count<T>(&self, region: &Region<T>) -> (n: usize)
        requires
            region.wf(),
            region.live(self.id()),
        ensures
            n == region.refs_of(self.id()),
    {
        region.slots[self.idx].refs
    }

    /// The borrow state of this handle's cell.
    pub fn borrow_state<T>(&self, region: &Region<T>) -> (s: BorrowState)
        requires
            region.wf(),
            region.live(self.id()),
        ensures
            s == region.state_of(self.id()),
    {
        region.slots[self.idx].cell.as_ref().unwrap().state()
    }

    /// A shared (read) token for this handle's cell: the checked read
    /// accessor. Asking while a writer is live is an aliasing violation by
    /// the caller and is excluded up front rather than handled.
    pub fn inner<T>(&self, region: &mut Region<T>) -> (t: Ref)
        requires
            old(region).wf(),
            old(region).live(self.id()),
            old(region).state_of(self.id()).can_acquire_shared(),
        ensures
            final(region).wf(),
            t.id() == self.id(),
            old(region).same_except(*final(region), self.id()),
            final(region).slot(self.id()) == old(region).slot(self.id()).after_acquire_shared(),
    {
        let idx = self.idx;
        let c = region.slots[idx].cell.as_mut().unwrap();
        c.begin_shared();
        proof {
            assert(old(region).slot(self.id()).wf());
            lemma_wf_same_except(*old(region), *region, self.id());
        }
        Ref { idx }
    }

    /// The exclusive (read-write) token for this handle's cell: the
    /// checked write accessor. Asking while anything is borrowed is an
    /// aliasing violation by the caller and is excluded up front.
    pub fn inner_mut<T>(&self, region: &mut Region<T>) -> (t: RefMut)
        requires
            old(region).wf(),
            old(region).live(self.id()),
            old(region).state_of(self.id()).can_acquire_exclusive(),
        ensures
            final(region).wf(),
            t.id() == self.id(),
            old(region).same_except(*final(region), self.id()),
            final(region).slot(self.id()) == old(region).slot(self.id()).after_acquire_exclusive(),
    {
        let idx = self.idx;
        let c = region.slots[idx].cell.as_mut().unwrap();
        c.begin_exclusive();
        proof {
            assert(old(region).slot(self.id()).wf());
            lemma_wf_same_except(*old(region), *region, self.id());
        }
        RefMut { idx }
    }

    /// Like [`Imp::inner`], but answers `None`, leaving the region
    /// untouched, exactly when the shared token may not be handed out: a
    /// writer is live, or the reader counter is exhausted.
    pub fn try_inner<T>(&self, region: &mut Region<T>) -> (t: Option<Ref>)
        requires
            old(region).wf(),
            old(region).live(self.id()),
        ensures
            final(region).wf(),
            t is Some <==> old(region).state_of(self.id()).can_acquire_shared(),
            t matches Some(t) ==> {
                &&& t.id() == self.id()
                &&& old(region).same_except(*final(region), self.id())
                &&& final(region).slot(self.id()) == old(region).slot(
                    self.id(),
                ).after_acquire_shared()
            },
            t is None ==> *final(region) == *old(region),
    {
        let s = self.borrow_state(region);
        let ok = match s {
            BorrowState::Unborrowed => true,
            BorrowState::Shared(n) => n < usize::MAX,
            BorrowState::Exclusive => false,
        };
        if ok {
            Some(self.inner(region))
        } else {
            None
        }
    }

    /// Like [`Imp::inner_mut`], but answers `None`, leaving the region
    /// untouched, exactly when the exclusive token may not be handed out:
    /// any token, shared or exclusive, is still live.
    pub fn try_inner_mut<T>(&self, region: &mut Region<T>) -> (t: Option<RefMut>)
        requires
            old(region).wf(),
            old(region).live(self.id()),
        ensures
            final(region).wf(),
            t is Some <==> old(region).state_of(self.id()).can_acquire_exclusive(),
            t matches Some(t) ==> {
                &&& t.id() == self.id()
                &&& old(region).same_except(*final(region), self.id())
                &&& final(region).slot(self.id()) == old(region).slot(
                    self.id(),
                ).after_acquire_exclusive()
            },
            t is None ==> *final(region) == *old(region),
    {
        let s = self.borrow_state(region);
        if s.is_unborrowed() {
            Some(self.inner_mut(region))
        } else {
            None
        }
    }
}

impl Ref {
    /// The identity of the cell this token was drawn from.
    pub closed spec fn id(self) -> int {
        self.idx as int
    }

    /// The value the token grants read access to.
    pub fn get<'a, T>(&self, region: &'a Region<T>) -> (r: &'a T)
        requires
            region.wf(),
            region.live(self.id()),
            region.state_of(self.id()) is Shared,
        ensures
            Some(*r) == region.value_of(self.id()),
    {
        region.slots[self.idx].cell.as_ref().unwrap().borrow_value()
    }
}

impl RefMut {
    /// The identity of the cell this token was drawn from.
    pub closed spec fn id(self) -> int {
        self.idx as int
    }

    /// The value the token grants write access to. Whatever the caller
    /// leaves behind the returned reference becomes the cell's value, seen
    /// by every handle naming the cell; the borrow state does not change,
    /// since only releasing the token ends the borrow.
    pub fn get<'a, T>(&self, region: &'a mut Region<T>) -> (r: &'a mut T)
        requires
            old(region).wf(),
            old(region).live(self.id()),
            old(region).state_of(self.id()) is Exclusive,
        ensures
            Some(*r) == old(region).value_of(self.id()),
            old(region).same_except(*final(region), self.id()),
            final(region).slot(self.id()) == old(region).slot(self.id()).written(*final(r)),
    {
        region.slots[self.idx].cell.as_mut().unwrap().borrow_value_mut()
    }
}

} // verus!
