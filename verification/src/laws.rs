//! The laws of the borrow discipline, stated once and proved, over the
//! specification models that every executable contract in this crate
//! speaks through: [`BorrowState`] for the per-cell discipline and
//! [`SlotModel`] for a cell as a region holds it.

use vstd::prelude::*;

use crate::region::{Region, SlotModel};
use crate::state::BorrowState;

verus! {

/// How a slot looks after `n` handle duplications.
pub open spec fn cloned_n<T>(m: SlotModel<T>, n: nat) -> SlotModel<T>
    decreases n,
{
    if n == 0 {
        m
    } else {
        cloned_n(m, (n - 1) as nat).after_clone()
    }
}

/// How a slot looks after `n` handle drops.
pub open spec fn dropped_n<T>(m: SlotModel<T>, n: nat) -> SlotModel<T>
    decreases n,
{
    if n == 0 {
        m
    } else {
        dropped_n(m, (n - 1) as nat).after_drop()
    }
}

/// A fresh cell starts unborrowed, so a first read may be taken at once,
/// and it observes the initial value unchanged: this is the slot
/// `Imp::new` promises, before and after its first shared acquisition.
pub proof fn lemma_new_starts_unborrowed_and_readable<T>(v: T)
    ensures
        ({
            let m = SlotModel { refs: 1nat, state: BorrowState::Unborrowed, value: Some(v) };
            &&& m.wf()
            &&& m.state is Unborrowed
            &&& m.state.can_acquire_shared()
            &&& m.after_acquire_shared().value == Some(v)
            &&& m.after_acquire_shared().state == BorrowState::Shared(1)
        }),
{
}

/// What one handle writes, every aliasing handle observes. Two handles
/// alias exactly when their identities agree (`Imp::ptr_eq`, and
/// `Imp::clone_handle` makes such a pair), so they address one slot: after
/// a write of `x` through an exclusive token taken on the unborrowed cell
/// and released again, a shared token taken through the other handle
/// observes `x`.
pub proof fn lemma_alias_sees_write<T>(r: Region<T>, r2: Region<T>, i: int, j: int, x: T)
    requires
        r.wf(),
        r.live(i),
        r.state_of(i) is Unborrowed,
        j == i,
        r.same_except(r2, i),
        r2.slot(i) == r.slot(i).after_acquire_exclusive().written(x).after_release_exclusive(),
    ensures
        r2.value_of(j) == Some(x),
        r2.state_of(j).can_acquire_shared(),
        r2.slot(j).after_acquire_shared().value == Some(x),
        r2.refs_of(j) == r.refs_of(i),
{
    assert(r.slot(i).wf());
}

/// Any number of readers may coexist: while one shared token is live a
/// second may be taken, both observe the same value, and releasing one
/// leaves the other's borrow intact, with the value still in place.
pub proof fn lemma_two_readers<T>(m: SlotModel<T>)
    requires
        m.wf(),
        m.refs > 0,
        m.state.can_acquire_shared(),
        m.state.reader_count() + 1 < usize::MAX,
    ensures
        m.after_acquire_shared().state.can_acquire_shared(),
        m.after_acquire_shared().value == m.value,
        m.after_acquire_shared().after_acquire_shared().value == m.value,
        m.after_acquire_shared().after_acquire_shared().after_release_shared()
            == m.after_acquire_shared(),
        m.after_acquire_shared().after_acquire_shared().after_release_shared().state is Shared,
{
    m.after_acquire_shared().state.lemma_shared_round_trip();
}

/// The single-writer rule: no exclusive token while any token is live, and
/// no token at all while the exclusive one is live. These are the two
/// fatal aliasing violations; the checked accessors exclude them up front
/// and the trying accessors answer `None` on exactly these states.
pub proof fn lemma_writer_excludes<T>(m: SlotModel<T>)
    requires
        m.wf(),
    ensures
        m.state is Shared ==> !m.state.can_acquire_exclusive(),
        m.state is Exclusive ==> !m.state.can_acquire_exclusive(),
        m.state is Exclusive ==> !m.state.can_acquire_shared(),
{
}

/// Releasing a shared token takes away exactly one reader, and reaches
/// `Unborrowed` exactly when that reader was the last.
pub proof fn lemma_release_shared_decrements(s: BorrowState, n: usize)
    requires
        s == BorrowState::Shared(n),
        n >= 1,
    ensures
        s.after_release_shared().reader_count() == n - 1,
        s.after_release_shared() is Unborrowed <==> n == 1,
        s.after_release_shared() is Shared <==> n > 1,
{
}

/// The write round trip: take the exclusive token on an unborrowed cell,
/// leave `x` behind, release; the cell is unborrowed again, holds `x`, and
/// a subsequent read observes `x`.
pub proof fn lemma_write_round_trip<T>(m: SlotModel<T>, x: T)
    requires
        m.wf(),
        m.refs > 0,
        m.state is Unborrowed,
    ensures
        m.after_acquire_exclusive().written(x).after_release_exclusive() == (SlotModel {
            refs: m.refs,
            state: BorrowState::Unborrowed,
            value: Some(x),
        }),
        m.after_acquire_exclusive().written(x).after_release_exclusive().wf(),
        m.after_acquire_exclusive().written(
            x,
        ).after_release_exclusive().after_acquire_shared().value == Some(x),
{
}

/// `n` clones leave the value and the borrow state alone and add `n`
/// owners.
pub proof fn lemma_cloned_n_shape<T>(m: SlotModel<T>, n: nat)
    ensures
        cloned_n(m, n) == (SlotModel { refs: m.refs + n, state: m.state, value: m.value }),
    decreases n,
{
    if n > 0 {
        lemma_cloned_n_shape(m, (n - 1) as nat);
    }
}

/// As long as owners remain, `n` drops leave the value and the borrow
/// state alone and take away `n` owners.
pub proof fn lemma_dropped_n_shape<T>(m: SlotModel<T>, n: nat)
    requires
        n < m.refs,
    ensures
        dropped_n(m, n) == (SlotModel {
            refs: (m.refs - n) as nat,
            state: m.state,
            value: m.value,
        }),
    decreases n,
{
    if n > 0 {
        lemma_dropped_n_shape(m, (n - 1) as nat);
    }
}

/// Cloning a handle `n` times and dropping all but one of the clones is
/// share bookkeeping only: the value and the borrow state are exactly as
/// before, and one owner more remains.
pub proof fn lemma_clone_n_drop_all_but_one<T>(m: SlotModel<T>, n: nat)
    requires
        m.refs >= 1,
        n >= 1,
    ensures
        dropped_n(cloned_n(m, n), (n - 1) as nat) == (SlotModel {
            refs: m.refs + 1,
            state: m.state,
            value: m.value,
        }),
{
    lemma_cloned_n_shape(m, n);
    lemma_dropped_n_shape(cloned_n(m, n), (n - 1) as nat);
}

} // verus!
