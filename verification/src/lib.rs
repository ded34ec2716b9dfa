//! A shared, mutably-accessible container with a checked borrow
//! discipline.
//!
//! A [`Region`] owns any number of cells; an [`Imp`] is a reference-counted
//! handle to one cell, and any number of handles may name the same cell.
//! Every handle can read or write the value of its cell through scoped
//! access tokens ([`Ref`] for readers, [`RefMut`] for the single writer),
//! and each cell carries a [`BorrowState`] guaranteeing that a live writer
//! never coexists with any other live view of the same value. A cell's
//! value and its state are destroyed with the last handle naming it.
//!
//! Aliased mutable state cannot be a tree of owned values, so one owner
//! mediates it: every operation on a handle or a token goes through the
//! region that owns the cell. That choice is what lets each operation
//! carry an exact contract over the region's specification-level model,
//! and lets the two fatal aliasing violations (a writer beside any other
//! live view) be excluded before they happen instead of detected after:
//! checked accessors exclude them as preconditions, and the trying
//! accessors ([`Imp::try_inner`], [`Imp::try_inner_mut`]) answer `None` on
//! exactly those states. A token is released by giving it back to the
//! region, which consumes it, so no token can be released twice.
//!
//! The operator-delegation layer in [`ops`] forwards the wrapped value
//! type's own operators through momentary tokens, and [`laws`] states and
//! proves the properties the discipline promises.

pub mod cell;
pub mod laws;
pub mod ops;
pub mod region;
pub mod state;

pub use cell::DerefCell;
pub use region::{Imp, Ref, RefMut, Region, SlotModel};
pub use state::BorrowState;
