//! The tri-state borrow discipline of a single cell.
//!
//! A cell's value is, at any moment, either unborrowed, readable through
//! `n >= 1` live shared tokens, or writable through exactly one live
//! exclusive token. The transition rules live here as pure data and spec
//! functions; the cells perform them.

use vstd::prelude::*;

verus! {

/// How the value inside a cell is currently borrowed.
#[derive(Clone, Copy, Debug, PartialEq, Eq, Structural)]
pub enum BorrowState {
    /// No live access token.
    Unborrowed,
    /// The recorded number of live shared (read) tokens; at least one.
    Shared(usize),
    /// Exactly one live exclusive (read-write) token.
    Exclusive,
}

impl BorrowState {
    /// A state is well formed when a shared borrow records at least one
    /// reader; `Shared(0)` never arises.
    pub open spec fn wf(self) -> bool {
        self matches BorrowState::Shared(n) ==> n >= 1
    }

    /// The number of live shared tokens recorded by this state.
    pub open spec fn reader_count(self) -> nat {
        match self {
            BorrowState::Shared(n) => n as nat,
            _ => 0,
        }
    }

    /// A shared token may be handed out unless a writer is live (a fatal
    /// misuse) or the reader count would no longer fit in its counter.
    pub open spec fn can_acquire_shared(self) -> bool {
        &&& !(self is Exclusive)
        &&& self.reader_count() < usize::MAX
    }

    /// An exclusive token may be handed out only when nothing is borrowed.
    pub open spec fn can_acquire_exclusive(self) -> bool {
        self is Unborrowed
    }

    /// The state after a shared token is handed out.
    pub open spec fn after_acquire_shared(self) -> BorrowState {
        BorrowState::Shared((self.reader_count() + 1) as usize)
    }

    /// The state after one shared token is released: one fewer reader,
    /// back to `Unborrowed` when it was the last.
    pub open spec fn after_release_shared(self) -> BorrowState {
        if self.reader_count() > 1 {
            BorrowState::Shared((self.reader_count() - 1) as usize)
        } else {
            BorrowState::Unborrowed
        }
    }

    /// The state after the exclusive token is released.
    pub open spec fn after_release_exclusive(self) -> BorrowState {
        BorrowState::Unborrowed
    }

    /// Acquiring a shared token and releasing it restores the state it
    /// found: a momentary read leaves no trace.
    pub proof fn lemma_shared_round_trip(self)
        requires
            self.wf(),
            self.can_acquire_shared(),
        ensures
            self.after_acquire_shared().after_release_shared() == self,
    {
    }

    /// Acquiring the exclusive token and releasing it restores the
    /// unborrowed state it found: a momentary write borrow leaves no
    /// trace on the state.
    pub proof fn lemma_exclusive_round_trip(self)
        requires
            self.wf(),
            self.can_acquire_exclusive(),
        ensures
            BorrowState::Exclusive.after_release_exclusive() == self,
    {
    }

    /// True when no access token is live.
    pub fn is_unborrowed(&self) -> (r: bool)
        ensures
            r == (*self is Unborrowed),
    {
        matches!(*self, BorrowState::Unborrowed)
    }

    /// True when at least one shared token is live.
    pub fn is_shared(&self) -> (r: bool)
        ensures
            r == (*self is Shared),
    {
        matches!(*self, BorrowState::Shared(_))
    }

    /// True when the exclusive token is live.
    pub fn is_exclusive(&self) -> (r: bool)
        ensures
            r == (*self is Exclusive),
    {
        matches!(*self, BorrowState::Exclusive)
    }

    /// The number of live shared tokens, zero outside `Shared`.
    pub fn readers(&self) -> (n: usize)
        ensures
            n == self.reader_count(),
    {
        match *self {
            BorrowState::Shared(n) => n,
            _ => 0,
        }
    }
}

} // verus!
