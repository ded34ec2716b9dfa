//! A single state-tracked container: one value together with the
//! [`BorrowState`] that guards it.
//!
//! `DerefCell` holds no reference-counting logic; sharing a cell between
//! several handles is the region's business. The cell only performs the
//! borrow-state transitions and hands the value out under the discipline
//! they encode.

use vstd::prelude::*;

use crate::state::BorrowState;

verus! {

/// One value of type `T` plus the borrow state that guards it.
pub struct DerefCell<T> {
    value: T,
    state: BorrowState,
}

impl<T> DerefCell<T> {
    /// The guarded value, as specification-level data.
    pub closed spec fn stored(self) -> T {
        self.value
    }

    /// The current borrow state, as specification-level data.
    pub closed spec fn borrow_state(self) -> BorrowState {
        self.state
    }

    /// A cell is well formed when its borrow state is.
    pub open spec fn wf(self) -> bool {
        self.borrow_state().wf()
    }

    /// A fresh cell: it holds `value` and nothing borrows it yet.
    pub fn new(value: T) -> (c: Self)
        ensures
            c.stored() == value,
            c.borrow_state() == BorrowState::Unborrowed,
            c.wf(),
    {
        DerefCell { value, state: BorrowState::Unborrowed }
    }

    /// The current borrow state.
    pub fn state(&self) -> (s: BorrowState)
        ensures
            s == self.borrow_state(),
    {
        self.state
    }

    /// Registers one more live shared token. Asking while a writer is live
    /// is an aliasing violation, excluded up front rather than handled.
    pub fn begin_shared(&mut self)
        requires
            old(self).wf(),
            old(self).borrow_state().can_acquire_shared(),
        ensures
            final(self).stored() == old(self).stored(),
            final(self).borrow_state() == old(self).borrow_state().after_acquire_shared(),
            final(self).wf(),
    {
        let n: usize = match self.state {
            BorrowState::Shared(n) => n,
            _ => 0,
        };
        self.state = BorrowState::Shared(n + 1);
    }

    /// Registers the one live exclusive token. Asking while anything is
    /// borrowed is an aliasing violation, excluded up front.
    pub fn begin_exclusive(&mut self)
        requires
            old(self).wf(),
            old(self).borrow_state().can_acquire_exclusive(),
        ensures
            final(self).stored() == old(self).stored(),
            final(self).borrow_state() == BorrowState::Exclusive,
            final(self).wf(),
    {
        self.state = BorrowState::Exclusive;
    }

    /// Forgets one live shared token: one fewer reader, back to
    /// `Unborrowed` when it was the last.
    pub fn end_shared(&mut self)
        requires
            old(self).wf(),
            old(self).borrow_state() is Shared,
        ensures
            final(self).stored() == old(self).stored(),
            final(self).borrow_state() == old(self).borrow_state().after_release_shared(),
            final(self).wf(),
    {
        let n: usize = match self.state {
            BorrowState::Shared(n) => n,
            _ => 1,
        };
        self.state = if n > 1 {
            BorrowState::Shared(n - 1)
        } else {
            BorrowState::Unborrowed
        };
    }

    /// Forgets the live exclusive token: back to `Unborrowed`.
    pub fn end_exclusive(&mut self)
        requires
            old(self).wf(),
            old(self).borrow_state() is Exclusive,
        ensures
            final(self).stored() == old(self).stored(),
            final(self).borrow_state() == BorrowState::Unborrowed,
            final(self).wf(),
    {
        self.state = BorrowState::Unborrowed;
    }

    /// Read access to the value; meant to be reached through a live shared
    /// token, which the borrow state records.
    pub fn borrow_value(&self) -> (r: &T)
        requires
            self.borrow_state() is Shared,
        ensures
            *r == self.stored(),
    {
        &self.value
    }

    /// Write access to the value; meant to be reached through the live
    /// exclusive token. The borrow state is left as it is: releasing the
    /// token, not finishing a write, ends the borrow.
    pub fn borrow_value_mut(&mut self) -> (r: &mut T)
        requires
            old(self).borrow_state() is Exclusive,
        ensures
            *r == old(self).stored(),
            final(self).stored() == *final(r),
            final(self).borrow_state() == old(self).borrow_state(),
    {
        &mut self.value
    }

    /// Takes the cell apart, yielding the value. The region does this when
    /// the last handle to the cell goes away; nothing may be borrowed then.
    pub fn into_value(self) -> (v: T)
        requires
            self.borrow_state() is Unborrowed,
        ensures
            v == self.stored(),
    {
        self.value
    }
}

} // verus!
