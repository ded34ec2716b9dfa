//! The operator-delegation layer: mechanical forwarders that apply an
//! operator of the wrapped value type to the value behind one or two
//! handles.
//!
//! Every forwarder goes through the checked accessors: it reads its
//! operands under momentary shared tokens, writes a result either into a
//! freshly allocated cell (the plain operators) or through an exclusive
//! token into the left operand's cell (the assigning operators), and
//! releases every token before returning, so the borrow state it found is
//! the borrow state it leaves. Nothing here touches a value except through
//! a token.
//!
//! The contracts are exact whenever the value type's own operator obeys
//! its specification (`obeys_add_spec()` and friends), which every
//! primitive integer type does.

use core::cmp::Ordering;

use vstd::prelude::*;

use crate::region::{Imp, Region, SlotModel};

verus! {

use vstd::std_specs::cmp::PartialEqSpec;
use vstd::std_specs::cmp::PartialOrdSpec;
use vstd::std_specs::ops::AddSpec;
use vstd::std_specs::ops::BitAndSpec;
use vstd::std_specs::ops::BitOrSpec;
use vstd::std_specs::ops::BitXorSpec;
use vstd::std_specs::ops::DivSpec;
use vstd::std_specs::ops::MulSpec;
use vstd::std_specs::ops::NegSpec;
use vstd::std_specs::ops::NotSpec;
use vstd::std_specs::ops::RemSpec;
use vstd::std_specs::ops::ShlSpec;
use vstd::std_specs::ops::ShrSpec;
use vstd::std_specs::ops::SubSpec;

/// The ordering the delegation layer derives from the wrapped values: the
/// original forwarders never answer "unordered"; two values neither below
/// nor above one another count as equal.
pub open spec fn delegated_cmp<T: PartialOrd>(a: T, b: T) -> Ordering {
    if a.partial_cmp_spec(&b) == Some(Ordering::Less) {
        Ordering::Less
    } else if a.partial_cmp_spec(&b) == Some(Ordering::Greater) {
        Ordering::Greater
    } else {
        Ordering::Equal
    }
}

/// Composing "all slots kept" with "one slot appended" appends to the
/// first region too.
proof fn lemma_appended_after_same_slots<T>(
    r0: Region<T>,
    r1: Region<T>,
    r2: Region<T>,
    m: SlotModel<T>,
)
    requires
        r0.same_slots(r1),
        r1.appended(r2, m),
    ensures
        r0.appended(r2, m),
{
    assert forall|j: int| 0 <= j < r0.slot_count() implies #[trigger] r2.slot(j) == r0.slot(j) by {
        assert(r1.slot(j) == r0.slot(j));
    }
}

/// Composing "all slots kept" with "all slots but `i` kept" keeps all
/// slots but `i` of the first region.
proof fn lemma_same_except_after_same_slots<T>(r0: Region<T>, r1: Region<T>, r2: Region<T>, i: int)
    requires
        0 <= i < r0.slot_count(),
        r0.same_slots(r1),
        r1.same_except(r2, i),
    ensures
        r0.same_except(r2, i),
        r1.slot(i) == r0.slot(i),
{
    assert forall|j: int| 0 <= j < r0.slot_count() && j != i implies #[trigger] r2.slot(j)
        == r0.slot(j) by {
        assert(r1.slot(j) == r0.slot(j));
    }
    assert(r1.slot(i) == r0.slot(i));
}

/// Keeping all slots but `i` twice in a row keeps all slots but `i`.
proof fn lemma_same_except_trans<T>(r0: Region<T>, r1: Region<T>, r2: Region<T>, i: int)
    requires
        r0.same_except(r1, i),
        r1.same_except(r2, i),
    ensures
        r0.same_except(r2, i),
{
    assert forall|j: int| 0 <= j < r0.slot_count() && j != i implies #[trigger] r2.slot(j)
        == r0.slot(j) by {
        assert(r1.slot(j) == r0.slot(j));
    }
}

impl<T: Copy> Region<T> {
    /// A copy of the value behind `h`, taken under a momentary shared
    /// token; the region is left exactly as found.
    pub fn read_copy(&mut self, h: &Imp) -> (v: T)
        requires
            old(self).wf(),
            old(self).live(h.id()),
            old(self).state_of(h.id()).can_acquire_shared(),
        ensures
            final(self).wf(),
            old(self).same_slots(*final(self)),
            v == old(self).value_at(h.id()),
    {
        let t = h.inner(self);
        let v = *t.get(self);
        let ghost mid = *self;
        self.release_shared(t);
        proof {
            old(self).state_of(h.id()).lemma_shared_round_trip();
            assert(self.slot(h.id()) == old(self).slot(h.id()));
            assert forall|j: int| 0 <= j < old(self).slot_count() implies #[trigger] self.slot(j)
                == old(self).slot(j) by {
                if j != h.id() {
                    assert(mid.slot(j) == old(self).slot(j));
                }
            }
        }
        v
    }
}

impl<T: Copy + core::ops::Add<Output = T>> Region<T> {
    /// Delegated `+` against a plain right-hand value: allocates a
    /// fresh cell holding the sum of the value behind `a` and `x`.
    pub fn add_value(&mut self, a: &Imp, x: T) -> (h: Imp)
        requires
            old(self).wf(),
            old(self).live(a.id()),
            old(self).state_of(a.id()).can_acquire_shared(),
            old(self).value_at(a.id()).add_req(x),
        ensures
            final(self).wf(),
            h.id() == old(self).slot_count(),
            old(self).appended(*final(self), final(self).slot(h.id())),
            final(self).refs_of(h.id()) == 1,
            final(self).state_of(h.id()) is Unborrowed,
            T::obeys_add_spec() ==> final(self).value_of(h.id()) == Some(
                old(self).value_at(a.id()).add_spec(x),
            ),
    {
        let va = self.read_copy(a);
        let ghost mid = *self;
        let h = Imp::new(self, va.add(x));
        proof {
            lemma_appended_after_same_slots(*old(self), mid, *self, self.slot(h.id()));
        }
        h
    }

    /// Delegated `+` of the values behind two handles: allocates a
    /// fresh cell holding their sum.
    pub fn add(&mut self, a: &Imp, b: &Imp) -> (h: Imp)
        requires
            old(self).wf(),
            old(self).live(a.id()),
            old(self).live(b.id()),
            old(self).state_of(a.id()).can_acquire_shared(),
            old(self).state_of(b.id()).can_acquire_shared(),
            old(self).value_at(a.id()).add_req(old(self).value_at(b.id())),
        ensures
            final(self).wf(),
            h.id() == old(self).slot_count(),
            old(self).appended(*final(self), final(self).slot(h.id())),
            final(self).refs_of(h.id()) == 1,
            final(self).state_of(h.id()) is Unborrowed,
            T::obeys_add_spec() ==> final(self).value_of(h.id()) == Some(
                old(self).value_at(a.id()).add_spec(old(self).value_at(b.id())),
            ),
    {
        let vb = self.read_copy(b);
        let ghost mid = *self;
        let h = self.add_value(a, vb);
        proof {
            lemma_appended_after_same_slots(*old(self), mid, *self, self.slot(h.id()));
        }
        h
    }

    /// Delegated `+=` against a plain right-hand value: replaces the
    /// value behind `a` with the sum, through a momentary exclusive
    /// token.
    pub fn add_assign_value(&mut self, a: &Imp, x: T)
        requires
            old(self).wf(),
            old(self).live(a.id()),
            old(self).state_of(a.id()).can_acquire_exclusive(),
            old(self).value_at(a.id()).add_req(x),
        ensures
            final(self).wf(),
            old(self).same_except(*final(self), a.id()),
            final(self).refs_of(a.id()) == old(self).refs_of(a.id()),
            final(self).state_of(a.id()) == old(self).state_of(a.id()),
            final(self).value_of(a.id()) is Some,
            T::obeys_add_spec() ==> final(self).value_of(a.id()) == Some(
                old(self).value_at(a.id()).add_spec(x),
            ),
    {
        let t = a.inner_mut(self);
        let ghost g1 = *self;
        let r = t.get(self);
        *r = (*r).add(x);
        let ghost g2 = *self;
        proof {
            assert(g1.slot(a.id()).wf());
            crate::region::lemma_wf_same_except(g1, g2, a.id());
        }
        self.release_exclusive(t);
        proof {
            lemma_same_except_trans(*old(self), g1, g2, a.id());
            lemma_same_except_trans(*old(self), g2, *self, a.id());
        }
    }

    /// Delegated `+=` of the value behind `b` into the cell behind
    /// `a`: reads `b` under a shared token, then writes the sum through
    /// an exclusive token on `a`. Both handles may name the same cell.
    pub fn add_assign(&mut self, a: &Imp, b: &Imp)
        requires
            old(self).wf(),
            old(self).live(a.id()),
            old(self).live(b.id()),
            old(self).state_of(b.id()).can_acquire_shared(),
            old(self).state_of(a.id()).can_acquire_exclusive(),
            old(self).value_at(a.id()).add_req(old(self).value_at(b.id())),
        ensures
            final(self).wf(),
            old(self).same_except(*final(self), a.id()),
            final(self).refs_of(a.id()) == old(self).refs_of(a.id()),
            final(self).state_of(a.id()) == old(self).state_of(a.id()),
            final(self).value_of(a.id()) is Some,
            T::obeys_add_spec() ==> final(self).value_of(a.id()) == Some(
                old(self).value_at(a.id()).add_spec(old(self).value_at(b.id())),
            ),
    {
        let vb = self.read_copy(b);
        let ghost mid = *self;
        self.add_assign_value(a, vb);
        proof {
            lemma_same_except_after_same_slots(*old(self), mid, *self, a.id());
        }
    }
}

impl<T: Copy + core::ops::Sub<Output = T>> Region<T> {
    /// Delegated `-` against a plain right-hand value: allocates a
    /// fresh cell holding the difference of the value behind `a` and `x`.
    pub fn sub_value(&mut self, a: &Imp, x: T) -> (h: Imp)
        requires
            old(self).wf(),
            old(self).live(a.id()),
            old(self).state_of(a.id()).can_acquire_shared(),
            old(self).value_at(a.id()).sub_req(x),
        ensures
            final(self).wf(),
            h.id() == old(self).slot_count(),
            old(self).appended(*final(self), final(self).slot(h.id())),
            final(self).refs_of(h.id()) == 1,
            final(self).state_of(h.id()) is Unborrowed,
            T::obeys_sub_spec() ==> final(self).value_of(h.id()) == Some(
                old(self).value_at(a.id()).sub_spec(x),
            ),
    {
        let va = self.read_copy(a);
        let ghost mid = *self;
        let h = Imp::new(self, va.sub(x));
        proof {
            lemma_appended_after_same_slots(*old(self), mid, *self, self.slot(h.id()));
        }
        h
    }

    /// Delegated `-` of the values behind two handles: allocates a
    /// fresh cell holding their difference.
    pub fn sub(&mut self, a: &Imp, b: &Imp) -> (h: Imp)
        requires
            old(self).wf(),
            old(self).live(a.id()),
            old(self).live(b.id()),
            old(self).state_of(a.id()).can_acquire_shared(),
            old(self).state_of(b.id()).can_acquire_shared(),
            old(self).value_at(a.id()).sub_req(old(self).value_at(b.id())),
        ensures
            final(self).wf(),
            h.id() == old(self).slot_count(),
            old(self).appended(*final(self), final(self).slot(h.id())),
            final(self).refs_of(h.id()) == 1,
            final(self).state_of(h.id()) is Unborrowed,
            T::obeys_sub_spec() ==> final(self).value_of(h.id()) == Some(
                old(self).value_at(a.id()).sub_spec(old(self).value_at(b.id())),
            ),
    {
        let vb = self.read_copy(b);
        let ghost mid = *self;
        let h = self.sub_value(a, vb);
        proof {
            lemma_appended_after_same_slots(*old(self), mid, *self, self.slot(h.id()));
        }
        h
    }

    /// Delegated `-=` against a plain right-hand value: replaces the
    /// value behind `a` with the difference, through a momentary exclusive
    /// token.
    pub fn sub_assign_value(&mut self, a: &Imp, x: T)
        requires
            old(self).wf(),
            old(self).live(a.id()),
            old(self).state_of(a.id()).can_acquire_exclusive(),
            old(self).value_at(a.id()).sub_req(x),
        ensures
            final(self).wf(),
            old(self).same_except(*final(self), a.id()),
            final(self).refs_of(a.id()) == old(self).refs_of(a.id()),
            final(self).state_of(a.id()) == old(self).state_of(a.id()),
            final(self).value_of(a.id()) is Some,
            T::obeys_sub_spec() ==> final(self).value_of(a.id()) == Some(
                old(self).value_at(a.id()).sub_spec(x),
            ),
    {
        let t = a.inner_mut(self);
        let ghost g1 = *self;
        let r = t.get(self);
        *r = (*r).sub(x);
        let ghost g2 = *self;
        proof {
            assert(g1.slot(a.id()).wf());
            crate::region::lemma_wf_same_except(g1, g2, a.id());
        }
        self.release_exclusive(t);
        proof {
            lemma_same_except_trans(*old(self), g1, g2, a.id());
            lemma_same_except_trans(*old(self), g2, *self, a.id());
        }
    }

    /// Delegated `-=` of the value behind `b` into the cell behind
    /// `a`: reads `b` under a shared token, then writes the difference through
    /// an exclusive token on `a`. Both handles may name the same cell.
    pub fn sub_assign(&mut self, a: &Imp, b: &Imp)
        requires
            old(self).wf(),
            old(self).live(a.id()),
            old(self).live(b.id()),
            old(self).state_of(b.id()).can_acquire_shared(),
            old(self).state_of(a.id()).can_acquire_exclusive(),
            old(self).value_at(a.id()).sub_req(old(self).value_at(b.id())),
        ensures
            final(self).wf(),
            old(self).same_except(*final(self), a.id()),
            final(self).refs_of(a.id()) == old(self).refs_of(a.id()),
            final(self).state_of(a.id()) == old(self).state_of(a.id()),
            final(self).value_of(a.id()) is Some,
            T::obeys_sub_spec() ==> final(self).value_of(a.id()) == Some(
                old(self).value_at(a.id()).sub_spec(old(self).value_at(b.id())),
            ),
    {
        let vb = self.read_copy(b);
        let ghost mid = *self;
        self.sub_assign_value(a, vb);
        proof {
            lemma_same_except_after_same_slots(*old(self), mid, *self, a.id());
        }
    }
}

impl<T: Copy + core::ops::Mul<Output = T>> Region<T> {
    /// Delegated `*` against a plain right-hand value: allocates a
    /// fresh cell holding the product of the value behind `a` and `x`.
    pub fn mul_value(&mut self, a: &Imp, x: T) -> (h: Imp)
        requires
            old(self).wf(),
            old(self).live(a.id()),
            old(self).state_of(a.id()).can_acquire_shared(),
            old(self).value_at(a.id()).mul_req(x),
        ensures
            final(self).wf(),
            h.id() == old(self).slot_count(),
            old(self).appended(*final(self), final(self).slot(h.id())),
            final(self).refs_of(h.id()) == 1,
            final(self).state_of(h.id()) is Unborrowed,
            T::obeys_mul_spec() ==> final(self).value_of(h.id()) == Some(
                old(self).value_at(a.id()).mul_spec(x),
            ),
    {
        let va = self.read_copy(a);
        let ghost mid = *self;
        let h = Imp::new(self, va.mul(x));
        proof {
            lemma_appended_after_same_slots(*old(self), mid, *self, self.slot(h.id()));
        }
        h
    }

    /// Delegated `*` of the values behind two handles: allocates a
    /// fresh cell holding their product.
    pub fn mul(&mut self, a: &Imp, b: &Imp) -> (h: Imp)
        requires
            old(self).wf(),
            old(self).live(a.id()),
            old(self).live(b.id()),
            old(self).state_of(a.id()).can_acquire_shared(),
            old(self).state_of(b.id()).can_acquire_shared(),
            old(self).value_at(a.id()).mul_req(old(self).value_at(b.id())),
        ensures
            final(self).wf(),
            h.id() == old(self).slot_count(),
            old(self).appended(*final(self), final(self).slot(h.id())),
            final(self).refs_of(h.id()) == 1,
            final(self).state_of(h.id()) is Unborrowed,
            T::obeys_mul_spec() ==> final(self).value_of(h.id()) == Some(
                old(self).value_at(a.id()).mul_spec(old(self).value_at(b.id())),
            ),
    {
        let vb = self.read_copy(b);
        let ghost mid = *self;
        let h = self.mul_value(a, vb);
        proof {
            lemma_appended_after_same_slots(*old(self), mid, *self, self.slot(h.id()));
        }
        h
    }

    /// Delegated `*=` against a plain right-hand value: replaces the
    /// value behind `a` with the product, through a momentary exclusive
    /// token.
    pub fn mul_assign_value(&mut self, a: &Imp, x: T)
        requires
            old(self).wf(),
            old(self).live(a.id()),
            old(self).state_of(a.id()).can_acquire_exclusive(),
            old(self).value_at(a.id()).mul_req(x),
        ensures
            final(self).wf(),
            old(self).same_except(*final(self), a.id()),
            final(self).refs_of(a.id()) == old(self).refs_of(a.id()),
            final(self).state_of(a.id()) == old(self).state_of(a.id()),
            final(self).value_of(a.id()) is Some,
            T::obeys_mul_spec() ==> final(self).value_of(a.id()) == Some(
                old(self).value_at(a.id()).mul_spec(x),
            ),
    {
        let t = a.inner_mut(self);
        let ghost g1 = *self;
        let r = t.get(self);
        *r = (*r).mul(x);
        let ghost g2 = *self;
        proof {
            assert(g1.slot(a.id()).wf());
            crate::region::lemma_wf_same_except(g1, g2, a.id());
        }
        self.release_exclusive(t);
        proof {
            lemma_same_except_trans(*old(self), g1, g2, a.id());
            lemma_same_except_trans(*old(self), g2, *self, a.id());
        }
    }

    /// Delegated `*=` of the value behind `b` into the cell behind
    /// `a`: reads `b` under a shared token, then writes the product through
    /// an exclusive token on `a`. Both handles may name the same cell.
    pub fn mul_assign(&mut self, a: &Imp, b: &Imp)
        requires
            old(self).wf(),
            old(self).live(a.id()),
            old(self).live(b.id()),
            old(self).state_of(b.id()).can_acquire_shared(),
            old(self).state_of(a.id()).can_acquire_exclusive(),
            old(self).value_at(a.id()).mul_req(old(self).value_at(b.id())),
        ensures
            final(self).wf(),
            old(self).same_except(*final(self), a.id()),
            final(self).refs_of(a.id()) == old(self).refs_of(a.id()),
            final(self).state_of(a.id()) == old(self).state_of(a.id()),
            final(self).value_of(a.id()) is Some,
            T::obeys_mul_spec() ==> final(self).value_of(a.id()) == Some(
                old(self).value_at(a.id()).mul_spec(old(self).value_at(b.id())),
            ),
    {
        let vb = self.read_copy(b);
        let ghost mid = *self;
        self.mul_assign_value(a, vb);
        proof {
            lemma_same_except_after_same_slots(*old(self), mid, *self, a.id());
        }
    }
}

impl<T: Copy + core::ops::Div<Output = T>> Region<T> {
    /// Delegated `/` against a plain right-hand value: allocates a
    /// fresh cell holding the quotient of the value behind `a` and `x`.
    pub fn div_value(&mut self, a: &Imp, x: T) -> (h: Imp)
        requires
            old(self).wf(),
            old(self).live(a.id()),
            old(self).state_of(a.id()).can_acquire_shared(),
            old(self).value_at(a.id()).div_req(x),
        ensures
            final(self).wf(),
            h.id() == old(self).slot_count(),
            old(self).appended(*final(self), final(self).slot(h.id())),
            final(self).refs_of(h.id()) == 1,
            final(self).state_of(h.id()) is Unborrowed,
            T::obeys_div_spec() ==> final(self).value_of(h.id()) == Some(
                old(self).value_at(a.id()).div_spec(x),
            ),
    {
        let va = self.read_copy(a);
        let ghost mid = *self;
        let h = Imp::new(self, va.div(x));
        proof {
            lemma_appended_after_same_slots(*old(self), mid, *self, self.slot(h.id()));
        }
        h
    }

    /// Delegated `/` of the values behind two handles: allocates a
    /// fresh cell holding their quotient.
    pub fn div(&mut self, a: &Imp, b: &Imp) -> (h: Imp)
        requires
            old(self).wf(),
            old(self).live(a.id()),
            old(self).live(b.id()),
            old(self).state_of(a.id()).can_acquire_shared(),
            old(self).state_of(b.id()).can_acquire_shared(),
            old(self).value_at(a.id()).div_req(old(self).value_at(b.id())),
        ensures
            final(self).wf(),
            h.id() == old(self).slot_count(),
            old(self).appended(*final(self), final(self).slot(h.id())),
            final(self).refs_of(h.id()) == 1,
            final(self).state_of(h.id()) is Unborrowed,
            T::obeys_div_spec() ==> final(self).value_of(h.id()) == Some(
                old(self).value_at(a.id()).div_spec(old(self).value_at(b.id())),
            ),
    {
        let vb = self.read_copy(b);
        let ghost mid = *self;
        let h = self.div_value(a, vb);
        proof {
            lemma_appended_after_same_slots(*old(self), mid, *self, self.slot(h.id()));
        }
        h
    }

    /// Delegated `/=` against a plain right-hand value: replaces the
    /// value behind `a` with the quotient, through a momentary exclusive
    /// token.
    pub fn div_assign_value(&mut self, a: &Imp, x: T)
        requires
            old(self).wf(),
            old(self).live(a.id()),
            old(self).state_of(a.id()).can_acquire_exclusive(),
            old(self).value_at(a.id()).div_req(x),
        ensures
            final(self).wf(),
            old(self).same_except(*final(self), a.id()),
            final(self).refs_of(a.id()) == old(self).refs_of(a.id()),
            final(self).state_of(a.id()) == old(self).state_of(a.id()),
            final(self).value_of(a.id()) is Some,
            T::obeys_div_spec() ==> final(self).value_of(a.id()) == Some(
                old(self).value_at(a.id()).div_spec(x),
            ),
    {
        let t = a.inner_mut(self);
        let ghost g1 = *self;
        let r = t.get(self);
        *r = (*r).div(x);
        let ghost g2 = *self;
        proof {
            assert(g1.slot(a.id()).wf());
            crate::region::lemma_wf_same_except(g1, g2, a.id());
        }
        self.release_exclusive(t);
        proof {
            lemma_same_except_trans(*old(self), g1, g2, a.id());
            lemma_same_except_trans(*old(self), g2, *self, a.id());
        }
    }

    /// Delegated `/=` of the value behind `b` into the cell behind
    /// `a`: reads `b` under a shared token, then writes the quotient through
    /// an exclusive token on `a`. Both handles may name the same cell.
    pub fn div_assign(&mut self, a: &Imp, b: &Imp)
        requires
            old(self).wf(),
            old(self).live(a.id()),
            old(self).live(b.id()),
            old(self).state_of(b.id()).can_acquire_shared(),
            old(self).state_of(a.id()).can_acquire_exclusive(),
            old(self).value_at(a.id()).div_req(old(self).value_at(b.id())),
        ensures
            final(self).wf(),
            old(self).same_except(*final(self), a.id()),
            final(self).refs_of(a.id()) == old(self).refs_of(a.id()),
            final(self).state_of(a.id()) == old(self).state_of(a.id()),
            final(self).value_of(a.id()) is Some,
            T::obeys_div_spec() ==> final(self).value_of(a.id()) == Some(
                old(self).value_at(a.id()).div_spec(old(self).value_at(b.id())),
            ),
    {
        let vb = self.read_copy(b);
        let ghost mid = *self;
        self.div_assign_value(a, vb);
        proof {
            lemma_same_except_after_same_slots(*old(self), mid, *self, a.id());
        }
    }
}

impl<T: Copy + core::ops::Rem<Output = T>> Region<T> {
    /// Delegated `%` against a plain right-hand value: allocates a
    /// fresh cell holding the remainder of the value behind `a` and `x`.
    pub fn rem_value(&mut self, a: &Imp, x: T) -> (h: Imp)
        requires
            old(self).wf(),
            old(self).live(a.id()),
            old(self).state_of(a.id()).can_acquire_shared(),
            old(self).value_at(a.id()).rem_req(x),
        ensures
            final(self).wf(),
            h.id() == old(self).slot_count(),
            old(self).appended(*final(self), final(self).slot(h.id())),
            final(self).refs_of(h.id()) == 1,
            final(self).state_of(h.id()) is Unborrowed,
            T::obeys_rem_spec() ==> final(self).value_of(h.id()) == Some(
                old(self).value_at(a.id()).rem_spec(x),
            ),
    {
        let va = self.read_copy(a);
        let ghost mid = *self;
        let h = Imp::new(self, va.rem(x));
        proof {
            lemma_appended_after_same_slots(*old(self), mid, *self, self.slot(h.id()));
        }
        h
    }

    /// Delegated `%` of the values behind two handles: allocates a
    /// fresh cell holding their remainder.
    pub fn rem(&mut self, a: &Imp, b: &Imp) -> (h: Imp)
        requires
            old(self).wf(),
            old(self).live(a.id()),
            old(self).live(b.id()),
            old(self).state_of(a.id()).can_acquire_shared(),
            old(self).state_of(b.id()).can_acquire_shared(),
            old(self).value_at(a.id()).rem_req(old(self).value_at(b.id())),
        ensures
            final(self).wf(),
            h.id() == old(self).slot_count(),
            old(self).appended(*final(self), final(self).slot(h.id())),
            final(self).refs_of(h.id()) == 1,
            final(self).state_of(h.id()) is Unborrowed,
            T::obeys_rem_spec() ==> final(self).value_of(h.id()) == Some(
                old(self).value_at(a.id()).rem_spec(old(self).value_at(b.id())),
            ),
    {
        let vb = self.read_copy(b);
        let ghost mid = *self;
        let h = self.rem_value(a, vb);
        proof {
            lemma_appended_after_same_slots(*old(self), mid, *self, self.slot(h.id()));
        }
        h
    }

    /// Delegated `%=` against a plain right-hand value: replaces the
    /// value behind `a` with the remainder, through a momentary exclusive
    /// token.
    pub fn rem_assign_value(&mut self, a: &Imp, x: T)
        requires
            old(self).wf(),
            old(self).live(a.id()),
            old(self).state_of(a.id()).can_acquire_exclusive(),
            old(self).value_at(a.id()).rem_req(x),
        ensures
            final(self).wf(),
            old(self).same_except(*final(self), a.id()),
            final(self).refs_of(a.id()) == old(self).refs_of(a.id()),
            final(self).state_of(a.id()) == old(self).state_of(a.id()),
            final(self).value_of(a.id()) is Some,
            T::obeys_rem_spec() ==> final(self).value_of(a.id()) == Some(
                old(self).value_at(a.id()).rem_spec(x),
            ),
    {
        let t = a.inner_mut(self);
        let ghost g1 = *self;
        let r = t.get(self);
        *r = (*r).rem(x);
        let ghost g2 = *self;
        proof {
            assert(g1.slot(a.id()).wf());
            crate::region::lemma_wf_same_except(g1, g2, a.id());
        }
        self.release_exclusive(t);
        proof {
            lemma_same_except_trans(*old(self), g1, g2, a.id());
            lemma_same_except_trans(*old(self), g2, *self, a.id());
        }
    }

    /// Delegated `%=` of the value behind `b` into the cell behind
    /// `a`: reads `b` under a shared token, then writes the remainder through
    /// an exclusive token on `a`. Both handles may name the same cell.
    pub fn rem_assign(&mut self, a: &Imp, b: &Imp)
        requires
            old(self).wf(),
            old(self).live(a.id()),
            old(self).live(b.id()),
            old(self).state_of(b.id()).can_acquire_shared(),
            old(self).state_of(a.id()).can_acquire_exclusive(),
            old(self).value_at(a.id()).rem_req(old(self).value_at(b.id())),
        ensures
            final(self).wf(),
            old(self).same_except(*final(self), a.id()),
            final(self).refs_of(a.id()) == old(self).refs_of(a.id()),
            final(self).state_of(a.id()) == old(self).state_of(a.id()),
            final(self).value_of(a.id()) is Some,
            T::obeys_rem_spec() ==> final(self).value_of(a.id()) == Some(
                old(self).value_at(a.id()).rem_spec(old(self).value_at(b.id())),
            ),
    {
        let vb = self.read_copy(b);
        let ghost mid = *self;
        self.rem_assign_value(a, vb);
        proof {
            lemma_same_except_after_same_slots(*old(self), mid, *self, a.id());
        }
    }
}

impl<T: Copy + core::ops::Shl<Output = T>> Region<T> {
    /// Delegated `<<` against a plain right-hand value: allocates a
    /// fresh cell holding the shifted value of the value behind `a` and `x`.
    pub fn shl_value(&mut self, a: &Imp, x: T) -> (h: Imp)
        requires
            old(self).wf(),
            old(self).live(a.id()),
            old(self).state_of(a.id()).can_acquire_shared(),
            old(self).value_at(a.id()).shl_req(x),
        ensures
            final(self).wf(),
            h.id() == old(self).slot_count(),
            old(self).appended(*final(self), final(self).slot(h.id())),
            final(self).refs_of(h.id()) == 1,
            final(self).state_of(h.id()) is Unborrowed,
            T::obeys_shl_spec() ==> final(self).value_of(h.id()) == Some(
                old(self).value_at(a.id()).shl_spec(x),
            ),
    {
        let va = self.read_copy(a);
        let ghost mid = *self;
        let h = Imp::new(self, va.shl(x));
        proof {
            lemma_appended_after_same_slots(*old(self), mid, *self, self.slot(h.id()));
        }
        h
    }

    /// Delegated `<<` of the values behind two handles: allocates a
    /// fresh cell holding their shifted value.
    pub fn shl(&mut self, a: &Imp, b: &Imp) -> (h: Imp)
        requires
            old(self).wf(),
            old(self).live(a.id()),
            old(self).live(b.id()),
            old(self).state_of(a.id()).can_acquire_shared(),
            old(self).state_of(b.id()).can_acquire_shared(),
            old(self).value_at(a.id()).shl_req(old(self).value_at(b.id())),
        ensures
            final(self).wf(),
            h.id() == old(self).slot_count(),
            old(self).appended(*final(self), final(self).slot(h.id())),
            final(self).refs_of(h.id()) == 1,
            final(self).state_of(h.id()) is Unborrowed,
            T::obeys_shl_spec() ==> final(self).value_of(h.id()) == Some(
                old(self).value_at(a.id()).shl_spec(old(self).value_at(b.id())),
            ),
    {
        let vb = self.read_copy(b);
        let ghost mid = *self;
        let h = self.shl_value(a, vb);
        proof {
            lemma_appended_after_same_slots(*old(self), mid, *self, self.slot(h.id()));
        }
        h
    }

    /// Delegated `<<=` against a plain right-hand value: replaces the
    /// value behind `a` with the shifted value, through a momentary exclusive
    /// token.
    pub fn shl_assign_value(&mut self, a: &Imp, x: T)
        requires
            old(self).wf(),
            old(self).live(a.id()),
            old(self).state_of(a.id()).can_acquire_exclusive(),
            old(self).value_at(a.id()).shl_req(x),
        ensures
            final(self).wf(),
            old(self).same_except(*final(self), a.id()),
            final(self).refs_of(a.id()) == old(self).refs_of(a.id()),
            final(self).state_of(a.id()) == old(self).state_of(a.id()),
            final(self).value_of(a.id()) is Some,
            T::obeys_shl_spec() ==> final(self).value_of(a.id()) == Some(
                old(self).value_at(a.id()).shl_spec(x),
            ),
    {
        let t = a.inner_mut(self);
        let ghost g1 = *self;
        let r = t.get(self);
        *r = (*r).shl(x);
        let ghost g2 = *self;
        proof {
            assert(g1.slot(a.id()).wf());
            crate::region::lemma_wf_same_except(g1, g2, a.id());
        }
        self.release_exclusive(t);
        proof {
            lemma_same_except_trans(*old(self), g1, g2, a.id());
            lemma_same_except_trans(*old(self), g2, *self, a.id());
        }
    }

    /// Delegated `<<=` of the value behind `b` into the cell behind
    /// `a`: reads `b` under a shared token, then writes the shifted value through
    /// an exclusive token on `a`. Both handles may name the same cell.
    pub fn shl_assign(&mut self, a: &Imp, b: &Imp)
        requires
            old(self).wf(),
            old(self).live(a.id()),
            old(self).live(b.id()),
            old(self).state_of(b.id()).can_acquire_shared(),
            old(self).state_of(a.id()).can_acquire_exclusive(),
            old(self).value_at(a.id()).shl_req(old(self).value_at(b.id())),
        ensures
            final(self).wf(),
            old(self).same_except(*final(self), a.id()),
            final(self).refs_of(a.id()) == old(self).refs_of(a.id()),
            final(self).state_of(a.id()) == old(self).state_of(a.id()),
            final(self).value_of(a.id()) is Some,
            T::obeys_shl_spec() ==> final(self).value_of(a.id()) == Some(
                old(self).value_at(a.id()).shl_spec(old(self).value_at(b.id())),
            ),
    {
        let vb = self.read_copy(b);
        let ghost mid = *self;
        self.shl_assign_value(a, vb);
        proof {
            lemma_same_except_after_same_slots(*old(self), mid, *self, a.id());
        }
    }
}

impl<T: Copy + core::ops::Shr<Output = T>> Region<T> {
    /// Delegated `>>` against a plain right-hand value: allocates a
    /// fresh cell holding the shifted value of the value behind `a` and `x`.
    pub fn shr_value(&mut self, a: &Imp, x: T) -> (h: Imp)
        requires
            old(self).wf(),
            old(self).live(a.id()),
            old(self).state_of(a.id()).can_acquire_shared(),
            old(self).value_at(a.id()).shr_req(x),
        ensures
            final(self).wf(),
            h.id() == old(self).slot_count(),
            old(self).appended(*final(self), final(self).slot(h.id())),
            final(self).refs_of(h.id()) == 1,
            final(self).state_of(h.id()) is Unborrowed,
            T::obeys_shr_spec() ==> final(self).value_of(h.id()) == Some(
                old(self).value_at(a.id()).shr_spec(x),
            ),
    {
        let va = self.read_copy(a);
        let ghost mid = *self;
        let h = Imp::new(self, va.shr(x));
        proof {
            lemma_appended_after_same_slots(*old(self), mid, *self, self.slot(h.id()));
        }
        h
    }

    /// Delegated `>>` of the values behind two handles: allocates a
    /// fresh cell holding their shifted value.
    pub fn shr(&mut self, a: &Imp, b: &Imp) -> (h: Imp)
        requires
            old(self).wf(),
            old(self).live(a.id()),
            old(self).live(b.id()),
            old(self).state_of(a.id()).can_acquire_shared(),
            old(self).state_of(b.id()).can_acquire_shared(),
            old(self).value_at(a.id()).shr_req(old(self).value_at(b.id())),
        ensures
            final(self).wf(),
            h.id() == old(self).slot_count(),
            old(self).appended(*final(self), final(self).slot(h.id())),
            final(self).refs_of(h.id()) == 1,
            final(self).state_of(h.id()) is Unborrowed,
            T::obeys_shr_spec() ==> final(self).value_of(h.id()) == Some(
                old(self).value_at(a.id()).shr_spec(old(self).value_at(b.id())),
            ),
    {
        let vb = self.read_copy(b);
        let ghost mid = *self;
        let h = self.shr_value(a, vb);
        proof {
            lemma_appended_after_same_slots(*old(self), mid, *self, self.slot(h.id()));
        }
        h
    }

    /// Delegated `>>=` against a plain right-hand value: replaces the
    /// value behind `a` with the shifted value, through a momentary exclusive
    /// token.
    pub fn shr_assign_value(&mut self, a: &Imp, x: T)
        requires
            old(self).wf(),
            old(self).live(a.id()),
            old(self).state_of(a.id()).can_acquire_exclusive(),
            old(self).value_at(a.id()).shr_req(x),
        ensures
            final(self).wf(),
            old(self).same_except(*final(self), a.id()),
            final(self).refs_of(a.id()) == old(self).refs_of(a.id()),
            final(self).state_of(a.id()) == old(self).state_of(a.id()),
            final(self).value_of(a.id()) is Some,
            T::obeys_shr_spec() ==> final(self).value_of(a.id()) == Some(
                old(self).value_at(a.id()).shr_spec(x),
            ),
    {
        let t = a.inner_mut(self);
        let ghost g1 = *self;
        let r = t.get(self);
        *r = (*r).shr(x);
        let ghost g2 = *self;
        proof {
            assert(g1.slot(a.id()).wf());
            crate::region::lemma_wf_same_except(g1, g2, a.id());
        }
        self.release_exclusive(t);
        proof {
            lemma_same_except_trans(*old(self), g1, g2, a.id());
            lemma_same_except_trans(*old(self), g2, *self, a.id());
        }
    }

    /// Delegated `>>=` of the value behind `b` into the cell behind
    /// `a`: reads `b` under a shared token, then writes the shifted value through
    /// an exclusive token on `a`. Both handles may name the same cell.
    pub fn shr_assign(&mut self, a: &Imp, b: &Imp)
        requires
            old(self).wf(),
            old(self).live(a.id()),
            old(self).live(b.id()),
            old(self).state_of(b.id()).can_acquire_shared(),
            old(self).state_of(a.id()).can_acquire_exclusive(),
            old(self).value_at(a.id()).shr_req(old(self).value_at(b.id())),
        ensures
            final(self).wf(),
            old(self).same_except(*final(self), a.id()),
            final(self).refs_of(a.id()) == old(self).refs_of(a.id()),
            final(self).state_of(a.id()) == old(self).state_of(a.id()),
            final(self).value_of(a.id()) is Some,
            T::obeys_shr_spec() ==> final(self).value_of(a.id()) == Some(
                old(self).value_at(a.id()).shr_spec(old(self).value_at(b.id())),
            ),
    {
        let vb = self.read_copy(b);
        let ghost mid = *self;
        self.shr_assign_value(a, vb);
        proof {
            lemma_same_except_after_same_slots(*old(self), mid, *self, a.id());
        }
    }
}

impl<T: Copy + core::ops::BitAnd<Output = T>> Region<T> {
    /// Delegated `&` against a plain right-hand value: allocates a
    /// fresh cell holding the conjunction of the value behind `a` and `x`.
    pub fn bitand_value(&mut self, a: &Imp, x: T) -> (h: Imp)
        requires
            old(self).wf(),
            old(self).live(a.id()),
            old(self).state_of(a.id()).can_acquire_shared(),
            old(self).value_at(a.id()).bitand_req(x),
        ensures
            final(self).wf(),
            h.id() == old(self).slot_count(),
            old(self).appended(*final(self), final(self).slot(h.id())),
            final(self).refs_of(h.id()) == 1,
            final(self).state_of(h.id()) is Unborrowed,
            T::obeys_bitand_spec() ==> final(self).value_of(h.id()) == Some(
                old(self).value_at(a.id()).bitand_spec(x),
            ),
    {
        let va = self.read_copy(a);
        let ghost mid = *self;
        let h = Imp::new(self, va.bitand(x));
        proof {
            lemma_appended_after_same_slots(*old(self), mid, *self, self.slot(h.id()));
        }
        h
    }

    /// Delegated `&` of the values behind two handles: allocates a
    /// fresh cell holding their conjunction.
    pub fn bitand(&mut self, a: &Imp, b: &Imp) -> (h: Imp)
        requires
            old(self).wf(),
            old(self).live(a.id()),
            old(self).live(b.id()),
            old(self).state_of(a.id()).can_acquire_shared(),
            old(self).state_of(b.id()).can_acquire_shared(),
            old(self).value_at(a.id()).bitand_req(old(self).value_at(b.id())),
        ensures
            final(self).wf(),
            h.id() == old(self).slot_count(),
            old(self).appended(*final(self), final(self).slot(h.id())),
            final(self).refs_of(h.id()) == 1,
            final(self).state_of(h.id()) is Unborrowed,
            T::obeys_bitand_spec() ==> final(self).value_of(h.id()) == Some(
                old(self).value_at(a.id()).bitand_spec(old(self).value_at(b.id())),
            ),
    {
        let vb = self.read_copy(b);
        let ghost mid = *self;
        let h = self.bitand_value(a, vb);
        proof {
            lemma_appended_after_same_slots(*old(self), mid, *self, self.slot(h.id()));
        }
        h
    }

    /// Delegated `&=` against a plain right-hand value: replaces the
    /// value behind `a` with the conjunction, through a momentary exclusive
    /// token.
    pub fn bitand_assign_value(&mut self, a: &Imp, x: T)
        requires
            old(self).wf(),
            old(self).live(a.id()),
            old(self).state_of(a.id()).can_acquire_exclusive(),
            old(self).value_at(a.id()).bitand_req(x),
        ensures
            final(self).wf(),
            old(self).same_except(*final(self), a.id()),
            final(self).refs_of(a.id()) == old(self).refs_of(a.id()),
            final(self).state_of(a.id()) == old(self).state_of(a.id()),
            final(self).value_of(a.id()) is Some,
            T::obeys_bitand_spec() ==> final(self).value_of(a.id()) == Some(
                old(self).value_at(a.id()).bitand_spec(x),
            ),
    {
        let t = a.inner_mut(self);
        let ghost g1 = *self;
        let r = t.get(self);
        *r = (*r).bitand(x);
        let ghost g2 = *self;
        proof {
            assert(g1.slot(a.id()).wf());
            crate::region::lemma_wf_same_except(g1, g2, a.id());
        }
        self.release_exclusive(t);
        proof {
            lemma_same_except_trans(*old(self), g1, g2, a.id());
            lemma_same_except_trans(*old(self), g2, *self, a.id());
        }
    }

    /// Delegated `&=` of the value behind `b` into the cell behind
    /// `a`: reads `b` under a shared token, then writes the conjunction through
    /// an exclusive token on `a`. Both handles may name the same cell.
    pub fn bitand_assign(&mut self, a: &Imp, b: &Imp)
        requires
            old(self).wf(),
            old(self).live(a.id()),
            old(self).live(b.id()),
            old(self).state_of(b.id()).can_acquire_shared(),
            old(self).state_of(a.id()).can_acquire_exclusive(),
            old(self).value_at(a.id()).bitand_req(old(self).value_at(b.id())),
        ensures
            final(self).wf(),
            old(self).same_except(*final(self), a.id()),
            final(self).refs_of(a.id()) == old(self).refs_of(a.id()),
            final(self).state_of(a.id()) == old(self).state_of(a.id()),
            final(self).value_of(a.id()) is Some,
            T::obeys_bitand_spec() ==> final(self).value_of(a.id()) == Some(
                old(self).value_at(a.id()).bitand_spec(old(self).value_at(b.id())),
            ),
    {
        let vb = self.read_copy(b);
        let ghost mid = *self;
        self.bitand_assign_value(a, vb);
        proof {
            lemma_same_except_after_same_slots(*old(self), mid, *self, a.id());
        }
    }
}

impl<T: Copy + core::ops::BitOr<Output = T>> Region<T> {
    /// Delegated `|` against a plain right-hand value: allocates a
    /// fresh cell holding the disjunction of the value behind `a` and `x`.
    pub fn bitor_value(&mut self, a: &Imp, x: T) -> (h: Imp)
        requires
            old(self).wf(),
            old(self).live(a.id()),
            old(self).state_of(a.id()).can_acquire_shared(),
            old(self).value_at(a.id()).bitor_req(x),
        ensures
            final(self).wf(),
            h.id() == old(self).slot_count(),
            old(self).appended(*final(self), final(self).slot(h.id())),
            final(self).refs_of(h.id()) == 1,
            final(self).state_of(h.id()) is Unborrowed,
            T::obeys_bitor_spec() ==> final(self).value_of(h.id()) == Some(
                old(self).value_at(a.id()).bitor_spec(x),
            ),
    {
        let va = self.read_copy(a);
        let ghost mid = *self;
        let h = Imp::new(self, va.bitor(x));
        proof {
            lemma_appended_after_same_slots(*old(self), mid, *self, self.slot(h.id()));
        }
        h
    }

    /// Delegated `|` of the values behind two handles: allocates a
    /// fresh cell holding their disjunction.
    pub fn bitor(&mut self, a: &Imp, b: &Imp) -> (h: Imp)
        requires
            old(self).wf(),
            old(self).live(a.id()),
            old(self).live(b.id()),
            old(self).state_of(a.id()).can_acquire_shared(),
            old(self).state_of(b.id()).can_acquire_shared(),
            old(self).value_at(a.id()).bitor_req(old(self).value_at(b.id())),
        ensures
            final(self).wf(),
            h.id() == old(self).slot_count(),
            old(self).appended(*final(self), final(self).slot(h.id())),
            final(self).refs_of(h.id()) == 1,
            final(self).state_of(h.id()) is Unborrowed,
            T::obeys_bitor_spec() ==> final(self).value_of(h.id()) == Some(
                old(self).value_at(a.id()).bitor_spec(old(self).value_at(b.id())),
            ),
    {
        let vb = self.read_copy(b);
        let ghost mid = *self;
        let h = self.bitor_value(a, vb);
        proof {
            lemma_appended_after_same_slots(*old(self), mid, *self, self.slot(h.id()));
        }
        h
    }

    /// Delegated `|=` against a plain right-hand value: replaces the
    /// value behind `a` with the disjunction, through a momentary exclusive
    /// token.
    pub fn bitor_assign_value(&mut self, a: &Imp, x: T)
        requires
            old(self).wf(),
            old(self).live(a.id()),
            old(self).state_of(a.id()).can_acquire_exclusive(),
            old(self).value_at(a.id()).bitor_req(x),
        ensures
            final(self).wf(),
            old(self).same_except(*final(self), a.id()),
            final(self).refs_of(a.id()) == old(self).refs_of(a.id()),
            final(self).state_of(a.id()) == old(self).state_of(a.id()),
            final(self).value_of(a.id()) is Some,
            T::obeys_bitor_spec() ==> final(self).value_of(a.id()) == Some(
                old(self).value_at(a.id()).bitor_spec(x),
            ),
    {
        let t = a.inner_mut(self);
        let ghost g1 = *self;
        let r = t.get(self);
        *r = (*r).bitor(x);
        let ghost g2 = *self;
        proof {
            assert(g1.slot(a.id()).wf());
            crate::region::lemma_wf_same_except(g1, g2, a.id());
        }
        self.release_exclusive(t);
        proof {
            lemma_same_except_trans(*old(self), g1, g2, a.id());
            lemma_same_except_trans(*old(self), g2, *self, a.id());
        }
    }

    /// Delegated `|=` of the value behind `b` into the cell behind
    /// `a`: reads `b` under a shared token, then writes the disjunction through
    /// an exclusive token on `a`. Both handles may name the same cell.
    pub fn bitor_assign(&mut self, a: &Imp, b: &Imp)
        requires
            old(self).wf(),
            old(self).live(a.id()),
            old(self).live(b.id()),
            old(self).state_of(b.id()).can_acquire_shared(),
            old(self).state_of(a.id()).can_acquire_exclusive(),
            old(self).value_at(a.id()).bitor_req(old(self).value_at(b.id())),
        ensures
            final(self).wf(),
            old(self).same_except(*final(self), a.id()),
            final(self).refs_of(a.id()) == old(self).refs_of(a.id()),
            final(self).state_of(a.id()) == old(self).state_of(a.id()),
            final(self).value_of(a.id()) is Some,
            T::obeys_bitor_spec() ==> final(self).value_of(a.id()) == Some(
                old(self).value_at(a.id()).bitor_spec(old(self).value_at(b.id())),
            ),
    {
        let vb = self.read_copy(b);
        let ghost mid = *self;
        self.bitor_assign_value(a, vb);
        proof {
            lemma_same_except_after_same_slots(*old(self), mid, *self, a.id());
        }
    }
}

impl<T: Copy + core::ops::BitXor<Output = T>> Region<T> {
    /// Delegated `^` against a plain right-hand value: allocates a
    /// fresh cell holding the exclusive disjunction of the value behind `a` and `x`.
    pub fn bitxor_value(&mut self, a: &Imp, x: T) -> (h: Imp)
        requires
            old(self).wf(),
            old(self).live(a.id()),
            old(self).state_of(a.id()).can_acquire_shared(),
            old(self).value_at(a.id()).bitxor_req(x),
        ensures
            final(self).wf(),
            h.id() == old(self).slot_count(),
            old(self).appended(*final(self), final(self).slot(h.id())),
            final(self).refs_of(h.id()) == 1,
            final(self).state_of(h.id()) is Unborrowed,
            T::obeys_bitxor_spec() ==> final(self).value_of(h.id()) == Some(
                old(self).value_at(a.id()).bitxor_spec(x),
            ),
    {
        let va = self.read_copy(a);
        let ghost mid = *self;
        let h = Imp::new(self, va.bitxor(x));
        proof {
            lemma_appended_after_same_slots(*old(self), mid, *self, self.slot(h.id()));
        }
        h
    }

    /// Delegated `^` of the values behind two handles: allocates a
    /// fresh cell holding their exclusive disjunction.
    pub fn bitxor(&mut self, a: &Imp, b: &Imp) -> (h: Imp)
        requires
            old(self).wf(),
            old(self).live(a.id()),
            old(self).live(b.id()),
            old(self).state_of(a.id()).can_acquire_shared(),
            old(self).state_of(b.id()).can_acquire_shared(),
            old(self).value_at(a.id()).bitxor_req(old(self).value_at(b.id())),
        ensures
            final(self).wf(),
            h.id() == old(self).slot_count(),
            old(self).appended(*final(self), final(self).slot(h.id())),
            final(self).refs_of(h.id()) == 1,
            final(self).state_of(h.id()) is Unborrowed,
            T::obeys_bitxor_spec() ==> final(self).value_of(h.id()) == Some(
                old(self).value_at(a.id()).bitxor_spec(old(self).value_at(b.id())),
            ),
    {
        let vb = self.read_copy(b);
        let ghost mid = *self;
        let h = self.bitxor_value(a, vb);
        proof {
            lemma_appended_after_same_slots(*old(self), mid, *self, self.slot(h.id()));
        }
        h
    }

    /// Delegated `^=` against a plain right-hand value: replaces the
    /// value behind `a` with the exclusive disjunction, through a momentary exclusive
    /// token.
    pub fn bitxor_assign_value(&mut self, a: &Imp, x: T)
        requires
            old(self).wf(),
            old(self).live(a.id()),
            old(self).state_of(a.id()).can_acquire_exclusive(),
            old(self).value_at(a.id()).bitxor_req(x),
        ensures
            final(self).wf(),
            old(self).same_except(*final(self), a.id()),
            final(self).refs_of(a.id()) == old(self).refs_of(a.id()),
            final(self).state_of(a.id()) == old(self).state_of(a.id()),
            final(self).value_of(a.id()) is Some,
            T::obeys_bitxor_spec() ==> final(self).value_of(a.id()) == Some(
                old(self).value_at(a.id()).bitxor_spec(x),
            ),
    {
        let t = a.inner_mut(self);
        let ghost g1 = *self;
        let r = t.get(self);
        *r = (*r).bitxor(x);
        let ghost g2 = *self;
        proof {
            assert(g1.slot(a.id()).wf());
            crate::region::lemma_wf_same_except(g1, g2, a.id());
        }
        self.release_exclusive(t);
        proof {
            lemma_same_except_trans(*old(self), g1, g2, a.id());
            lemma_same_except_trans(*old(self), g2, *self, a.id());
        }
    }

    /// Delegated `^=` of the value behind `b` into the cell behind
    /// `a`: reads `b` under a shared token, then writes the exclusive disjunction through
    /// an exclusive token on `a`. Both handles may name the same cell.
    pub fn bitxor_assign(&mut self, a: &Imp, b: &Imp)
        requires
            old(self).wf(),
            old(self).live(a.id()),
            old(self).live(b.id()),
            old(self).state_of(b.id()).can_acquire_shared(),
            old(self).state_of(a.id()).can_acquire_exclusive(),
            old(self).value_at(a.id()).bitxor_req(old(self).value_at(b.id())),
        ensures
            final(self).wf(),
            old(self).same_except(*final(self), a.id()),
            final(self).refs_of(a.id()) == old(self).refs_of(a.id()),
            final(self).state_of(a.id()) == old(self).state_of(a.id()),
            final(self).value_of(a.id()) is Some,
            T::obeys_bitxor_spec() ==> final(self).value_of(a.id()) == Some(
                old(self).value_at(a.id()).bitxor_spec(old(self).value_at(b.id())),
            ),
    {
        let vb = self.read_copy(b);
        let ghost mid = *self;
        self.bitxor_assign_value(a, vb);
        proof {
            lemma_same_except_after_same_slots(*old(self), mid, *self, a.id());
        }
    }
}

impl<T: Copy + core::ops::Not<Output = T>> Region<T> {
    /// Delegated `!`: allocates a fresh cell holding the negation of the
    /// value behind `a`.
    pub fn not(&mut self, a: &Imp) -> (h: Imp)
        requires
            old(self).wf(),
            old(self).live(a.id()),
            old(self).state_of(a.id()).can_acquire_shared(),
            old(self).value_at(a.id()).not_req(),
        ensures
            final(self).wf(),
            h.id() == old(self).slot_count(),
            old(self).appended(*final(self), final(self).slot(h.id())),
            final(self).refs_of(h.id()) == 1,
            final(self).state_of(h.id()) is Unborrowed,
            T::obeys_not_spec() ==> final(self).value_of(h.id()) == Some(
                old(self).value_at(a.id()).not_spec(),
            ),
    {
        let va = self.read_copy(a);
        let ghost mid = *self;
        let h = Imp::new(self, va.not());
        proof {
            lemma_appended_after_same_slots(*old(self), mid, *self, self.slot(h.id()));
        }
        h
    }
}

impl<T: Copy + core::ops::Neg<Output = T>> Region<T> {
    /// Delegated `-`: allocates a fresh cell holding the arithmetic negation of the
    /// value behind `a`.
    pub fn neg(&mut self, a: &Imp) -> (h: Imp)
        requires
            old(self).wf(),
            old(self).live(a.id()),
            old(self).state_of(a.id()).can_acquire_shared(),
            old(self).value_at(a.id()).neg_req(),
        ensures
            final(self).wf(),
            h.id() == old(self).slot_count(),
            old(self).appended(*final(self), final(self).slot(h.id())),
            final(self).refs_of(h.id()) == 1,
            final(self).state_of(h.id()) is Unborrowed,
            T::obeys_neg_spec() ==> final(self).value_of(h.id()) == Some(
                old(self).value_at(a.id()).neg_spec(),
            ),
    {
        let va = self.read_copy(a);
        let ghost mid = *self;
        let h = Imp::new(self, va.neg());
        proof {
            lemma_appended_after_same_slots(*old(self), mid, *self, self.slot(h.id()));
        }
        h
    }
}


impl<T: PartialEq> Region<T> {
    /// Delegated `==` of the values behind two handles, read under two
    /// concurrently live shared tokens; identity plays no part, only the
    /// values. Both handles may name the same cell.
    pub fn value_eq(&mut self, a: &Imp, b: &Imp) -> (r: bool)
        requires
            old(self).wf(),
            old(self).live(a.id()),
            old(self).live(b.id()),
            old(self).state_of(a.id()).can_acquire_shared(),
            old(self).state_of(b.id()).can_acquire_shared(),
            a.id() == b.id() ==> old(self).state_of(a.id()).reader_count() + 1 < usize::MAX,
        ensures
            final(self).wf(),
            old(self).same_slots(*final(self)),
            T::obeys_eq_spec() ==> r == old(self).value_at(a.id()).eq_spec(
                &old(self).value_at(b.id()),
            ),
    {
        let ta = a.inner(self);
        let ghost g1 = *self;
        let tb = b.inner(self);
        let ghost g2 = *self;
        let r = {
            let ra = ta.get(self);
            let rb = tb.get(self);
            ra.eq(rb)
        };
        self.release_shared(tb);
        let ghost g3 = *self;
        self.release_shared(ta);
        proof {
            lemma_two_reads_round_trip(*old(self), g1, g2, g3, *self, a.id(), b.id());
        }
        r
    }

    /// Delegated `==` against a plain right-hand value, read under a
    /// momentary shared token.
    pub fn value_eq_with(&mut self, a: &Imp, x: &T) -> (r: bool)
        requires
            old(self).wf(),
            old(self).live(a.id()),
            old(self).state_of(a.id()).can_acquire_shared(),
        ensures
            final(self).wf(),
            old(self).same_slots(*final(self)),
            T::obeys_eq_spec() ==> r == old(self).value_at(a.id()).eq_spec(x),
    {
        let ta = a.inner(self);
        let ghost g1 = *self;
        let r = ta.get(self).eq(x);
        self.release_shared(ta);
        proof {
            old(self).state_of(a.id()).lemma_shared_round_trip();
            assert(self.slot(a.id()) == old(self).slot(a.id()));
            assert forall|j: int| 0 <= j < old(self).slot_count() implies #[trigger] self.slot(j)
                == old(self).slot(j) by {
                if j != a.id() {
                    assert(g1.slot(j) == old(self).slot(j));
                }
            }
        }
        r
    }
}

impl<T: PartialOrd> Region<T> {
    /// Delegated comparison of the values behind two handles, read under
    /// two concurrently live shared tokens: below, above, otherwise equal,
    /// exactly as the forwarded `<` and `>` of the value type answer.
    pub fn partial_cmp(&mut self, a: &Imp, b: &Imp) -> (r: Option<Ordering>)
        requires
            old(self).wf(),
            old(self).live(a.id()),
            old(self).live(b.id()),
            old(self).state_of(a.id()).can_acquire_shared(),
            old(self).state_of(b.id()).can_acquire_shared(),
            a.id() == b.id() ==> old(self).state_of(a.id()).reader_count() + 1 < usize::MAX,
        ensures
            final(self).wf(),
            old(self).same_slots(*final(self)),
            r is Some,
            T::obeys_partial_cmp_spec() ==> r == Some(
                delegated_cmp(old(self).value_at(a.id()), old(self).value_at(b.id())),
            ),
    {
        let ta = a.inner(self);
        let ghost g1 = *self;
        let tb = b.inner(self);
        let ghost g2 = *self;
        let r = {
            let ra = ta.get(self);
            let rb = tb.get(self);
            if ra.lt(rb) {
                Some(Ordering::Less)
            } else if ra.gt(rb) {
                Some(Ordering::Greater)
            } else {
                Some(Ordering::Equal)
            }
        };
        self.release_shared(tb);
        let ghost g3 = *self;
        self.release_shared(ta);
        proof {
            lemma_two_reads_round_trip(*old(self), g1, g2, g3, *self, a.id(), b.id());
        }
        r
    }

    /// Delegated comparison against a plain right-hand value, read under a
    /// momentary shared token.
    pub fn partial_cmp_with(&mut self, a: &Imp, x: &T) -> (r: Option<Ordering>)
        requires
            old(self).wf(),
            old(self).live(a.id()),
            old(self).state_of(a.id()).can_acquire_shared(),
        ensures
            final(self).wf(),
            old(self).same_slots(*final(self)),
            r is Some,
            T::obeys_partial_cmp_spec() ==> r == Some(
                delegated_cmp(old(self).value_at(a.id()), *x),
            ),
    {
        let ta = a.inner(self);
        let ghost g1 = *self;
        let r = {
            let ra = ta.get(self);
            if ra.lt(x) {
                Some(Ordering::Less)
            } else if ra.gt(x) {
                Some(Ordering::Greater)
            } else {
                Some(Ordering::Equal)
            }
        };
        self.release_shared(ta);
        proof {
            old(self).state_of(a.id()).lemma_shared_round_trip();
            assert(self.slot(a.id()) == old(self).slot(a.id()));
            assert forall|j: int| 0 <= j < old(self).slot_count() implies #[trigger] self.slot(j)
                == old(self).slot(j) by {
                if j != a.id() {
                    assert(g1.slot(j) == old(self).slot(j));
                }
            }
        }
        r
    }

    /// Delegated `<` of the values behind two handles.
    pub fn lt(&mut self, a: &Imp, b: &Imp) -> (r: bool)
        requires
            old(self).wf(),
            old(self).live(a.id()),
            old(self).live(b.id()),
            old(self).state_of(a.id()).can_acquire_shared(),
            old(self).state_of(b.id()).can_acquire_shared(),
            a.id() == b.id() ==> old(self).state_of(a.id()).reader_count() + 1 < usize::MAX,
        ensures
            final(self).wf(),
            old(self).same_slots(*final(self)),
            T::obeys_partial_cmp_spec() ==> r == (delegated_cmp(
                old(self).value_at(a.id()),
                old(self).value_at(b.id()),
            ) == Ordering::Less),
    {
        let c = self.partial_cmp(a, b);
        matches!(c, Some(Ordering::Less))
    }

    /// Delegated `<=` of the values behind two handles.
    pub fn le(&mut self, a: &Imp, b: &Imp) -> (r: bool)
        requires
            old(self).wf(),
            old(self).live(a.id()),
            old(self).live(b.id()),
            old(self).state_of(a.id()).can_acquire_shared(),
            old(self).state_of(b.id()).can_acquire_shared(),
            a.id() == b.id() ==> old(self).state_of(a.id()).reader_count() + 1 < usize::MAX,
        ensures
            final(self).wf(),
            old(self).same_slots(*final(self)),
            T::obeys_partial_cmp_spec() ==> r == (delegated_cmp(
                old(self).value_at(a.id()),
                old(self).value_at(b.id()),
            ) != Ordering::Greater),
    {
        let c = self.partial_cmp(a, b);
        !matches!(c, Some(Ordering::Greater))
    }

    /// Delegated `>` of the values behind two handles.
    pub fn gt(&mut self, a: &Imp, b: &Imp) -> (r: bool)
        requires
            old(self).wf(),
            old(self).live(a.id()),
            old(self).live(b.id()),
            old(self).state_of(a.id()).can_acquire_shared(),
            old(self).state_of(b.id()).can_acquire_shared(),
            a.id() == b.id() ==> old(self).state_of(a.id()).reader_count() + 1 < usize::MAX,
        ensures
            final(self).wf(),
            old(self).same_slots(*final(self)),
            T::obeys_partial_cmp_spec() ==> r == (delegated_cmp(
                old(self).value_at(a.id()),
                old(self).value_at(b.id()),
            ) == Ordering::Greater),
    {
        let c = self.partial_cmp(a, b);
        matches!(c, Some(Ordering::Greater))
    }

    /// Delegated `>=` of the values behind two handles.
    pub fn ge(&mut self, a: &Imp, b: &Imp) -> (r: bool)
        requires
            old(self).wf(),
            old(self).live(a.id()),
            old(self).live(b.id()),
            old(self).state_of(a.id()).can_acquire_shared(),
            old(self).state_of(b.id()).can_acquire_shared(),
            a.id() == b.id() ==> old(self).state_of(a.id()).reader_count() + 1 < usize::MAX,
        ensures
            final(self).wf(),
            old(self).same_slots(*final(self)),
            T::obeys_partial_cmp_spec() ==> r == (delegated_cmp(
                old(self).value_at(a.id()),
                old(self).value_at(b.id()),
            ) != Ordering::Less),
    {
        let c = self.partial_cmp(a, b);
        !matches!(c, Some(Ordering::Less))
    }

    /// Delegated `<` against a plain right-hand value.
    pub fn lt_with(&mut self, a: &Imp, x: &T) -> (r: bool)
        requires
            old(self).wf(),
            old(self).live(a.id()),
            old(self).state_of(a.id()).can_acquire_shared(),
        ensures
            final(self).wf(),
            old(self).same_slots(*final(self)),
            T::obeys_partial_cmp_spec() ==> r == (delegated_cmp(old(self).value_at(a.id()), *x)
                == Ordering::Less),
    {
        let c = self.partial_cmp_with(a, x);
        matches!(c, Some(Ordering::Less))
    }

    /// Delegated `<=` against a plain right-hand value.
    pub fn le_with(&mut self, a: &Imp, x: &T) -> (r: bool)
        requires
            old(self).wf(),
            old(self).live(a.id()),
            old(self).state_of(a.id()).can_acquire_shared(),
        ensures
            final(self).wf(),
            old(self).same_slots(*final(self)),
            T::obeys_partial_cmp_spec() ==> r == (delegated_cmp(old(self).value_at(a.id()), *x)
                != Ordering::Greater),
    {
        let c = self.partial_cmp_with(a, x);
        !matches!(c, Some(Ordering::Greater))
    }

    /// Delegated `>` against a plain right-hand value.
    pub fn gt_with(&mut self, a: &Imp, x: &T) -> (r: bool)
        requires
            old(self).wf(),
            old(self).live(a.id()),
            old(self).state_of(a.id()).can_acquire_shared(),
        ensures
            final(self).wf(),
            old(self).same_slots(*final(self)),
            T::obeys_partial_cmp_spec() ==> r == (delegated_cmp(old(self).value_at(a.id()), *x)
                == Ordering::Greater),
    {
        let c = self.partial_cmp_with(a, x);
        matches!(c, Some(Ordering::Greater))
    }

    /// Delegated `>=` against a plain right-hand value.
    pub fn ge_with(&mut self, a: &Imp, x: &T) -> (r: bool)
        requires
            old(self).wf(),
            old(self).live(a.id()),
            old(self).state_of(a.id()).can_acquire_shared(),
        ensures
            final(self).wf(),
            old(self).same_slots(*final(self)),
            T::obeys_partial_cmp_spec() ==> r == (delegated_cmp(old(self).value_at(a.id()), *x)
                != Ordering::Less),
    {
        let c = self.partial_cmp_with(a, x);
        !matches!(c, Some(Ordering::Less))
    }
}

impl<T: Ord> Region<T> {
    /// Delegated total comparison: the delegated partial comparison, which
    /// never answers "unordered", unwrapped.
    pub fn cmp(&mut self, a: &Imp, b: &Imp) -> (r: Ordering)
        requires
            old(self).wf(),
            old(self).live(a.id()),
            old(self).live(b.id()),
            old(self).state_of(a.id()).can_acquire_shared(),
            old(self).state_of(b.id()).can_acquire_shared(),
            a.id() == b.id() ==> old(self).state_of(a.id()).reader_count() + 1 < usize::MAX,
        ensures
            final(self).wf(),
            old(self).same_slots(*final(self)),
            T::obeys_partial_cmp_spec() ==> r == delegated_cmp(
                old(self).value_at(a.id()),
                old(self).value_at(b.id()),
            ),
    {
        let c = self.partial_cmp(a, b);
        c.unwrap()
    }
}

/// Acquiring two shared tokens, reading under both, and releasing both
/// leaves every slot as it was, whether the tokens came from one cell or
/// from two.
proof fn lemma_two_reads_round_trip<T>(
    r0: Region<T>,
    g1: Region<T>,
    g2: Region<T>,
    g3: Region<T>,
    r4: Region<T>,
    ai: int,
    bi: int,
)
    requires
        r0.wf(),
        r0.live(ai),
        r0.live(bi),
        r0.state_of(ai).can_acquire_shared(),
        r0.state_of(bi).can_acquire_shared(),
        ai == bi ==> r0.state_of(ai).reader_count() + 1 < usize::MAX,
        r0.same_except(g1, ai),
        g1.slot(ai) == r0.slot(ai).after_acquire_shared(),
        g1.same_except(g2, bi),
        g2.slot(bi) == g1.slot(bi).after_acquire_shared(),
        g2.same_except(g3, bi),
        g3.slot(bi) == g2.slot(bi).after_release_shared(),
        g3.same_except(r4, ai),
        r4.slot(ai) == g3.slot(ai).after_release_shared(),
    ensures
        r0.same_slots(r4),
{
    if ai == bi {
        r0.state_of(ai).lemma_shared_round_trip();
        g1.state_of(ai).lemma_shared_round_trip();
        assert(g3.slot(ai) == g1.slot(ai));
        assert(r4.slot(ai) == r0.slot(ai));
    } else {
        r0.state_of(ai).lemma_shared_round_trip();
        r0.state_of(bi).lemma_shared_round_trip();
        assert(g1.slot(bi) == r0.slot(bi));
        assert(g3.slot(bi) == r0.slot(bi));
        assert(g3.slot(ai) == g1.slot(ai));
        assert(r4.slot(ai) == r0.slot(ai));
        assert(r4.slot(bi) == r0.slot(bi));
    }
    assert forall|j: int| 0 <= j < r0.slot_count() implies #[trigger] r4.slot(j) == r0.slot(j) by {
        if j != ai && j != bi {
            assert(g1.slot(j) == r0.slot(j));
            assert(g2.slot(j) == g1.slot(j));
            assert(g3.slot(j) == g2.slot(j));
        }
    }
}

} // verus!
