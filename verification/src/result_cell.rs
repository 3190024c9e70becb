//! The one-shot result cell: a set-once slot bridging the producer of a
//! response (the dispatcher) and its consumer (the caller that awaits it).
//!
//! The cell moves `Empty -> Set` exactly once. A second `set` is detected and
//! discarded, the first value wins. The consumer's poll registers its waiter
//! before re-checking readiness, so a `set` landing between the first check
//! and the registration is never missed. A consumer may abandon the cell at
//! any time; a later `set` then stores nothing and faults nothing. The cell
//! owns its value outright, so no stale storage is ever read.

use vstd::prelude::*;

verus! {

/// The abstract state of a cell: its slot, whether the consumer already took
/// the value or walked away, and the waiter bookkeeping.
pub ghost struct CellState<T> {
    /// What the slot holds.
    pub value: Option<T>,
    /// The consumer has already taken the value out.
    pub taken: bool,
    /// The consumer released the cell before a value arrived.
    pub abandoned: bool,
    /// The consumer registered its wake request.
    pub waiter: bool,
    /// A set arrived while a waiter was registered; the wake is owed.
    pub wake_pending: bool,
}

/// A fresh cell: empty, unobserved, nobody waiting.
pub open spec fn init_cell<T>() -> CellState<T> {
    CellState { value: None, taken: false, abandoned: false, waiter: false, wake_pending: false }
}

/// The producer's transition: store the value only into an empty, unobserved,
/// not-abandoned cell, and owe a wake if a waiter is registered. In every
/// other state nothing changes and the second bool reports the rejection.
pub open spec fn set_step<T>(c: CellState<T>, v: T) -> (CellState<T>, bool) {
    if c.value is None && !c.taken && !c.abandoned {
        (
            CellState {
                value: Some(v),
                taken: false,
                abandoned: false,
                waiter: c.waiter,
                wake_pending: c.wake_pending || c.waiter,
            },
            true,
        )
    } else {
        (c, false)
    }
}

/// The consumer's transition: register the waiter first, then re-check; if a
/// value is there and was never taken, take it (satisfying any owed wake),
/// otherwise stay registered and report nothing yet.
pub open spec fn poll_step<T>(c: CellState<T>) -> (CellState<T>, Option<T>) {
    if c.value is Some && !c.taken {
        (
            CellState {
                value: None,
                taken: true,
                abandoned: c.abandoned,
                waiter: true,
                wake_pending: false,
            },
            c.value,
        )
    } else {
        (
            CellState {
                value: c.value,
                taken: c.taken,
                abandoned: c.abandoned,
                waiter: true,
                wake_pending: c.wake_pending,
            },
            None,
        )
    }
}

/// The consumer walks away: the slot is emptied, later sets are discarded.
pub open spec fn abandon_step<T>(c: CellState<T>) -> CellState<T> {
    CellState {
        value: None,
        taken: c.taken,
        abandoned: true,
        waiter: c.waiter,
        wake_pending: false,
    }
}

/// A single-producer, single-consumer slot holding at most one value of type
/// `T`. Every operation is pinned to the matching step function on
/// [`CellState`].
pub struct ResultCell<T> {
    value: Option<T>,
    taken: bool,
    abandoned: bool,
    waiter: bool,
    wake_pending: bool,
}

impl<T> ResultCell<T> {
    pub closed spec fn model(&self) -> CellState<T> {
        CellState {
            value: self.value,
            taken: self.taken,
            abandoned: self.abandoned,
            waiter: self.waiter,
            wake_pending: self.wake_pending,
        }
    }

    pub fn new() -> (r: Self)
        ensures
            r.model() == init_cell::<T>(),
    {
        ResultCell {
            value: None,
            taken: false,
            abandoned: false,
            waiter: false,
            wake_pending: false,
        }
    }

    /// Producer side. Returns whether the value was stored; `false` reports
    /// a rejected (second, late, or post-abandon) set, whose value is
    /// discarded without touching the cell.
    pub fn set(&mut self, v: T) -> (stored: bool)
        ensures
            (final(self).model(), stored) == set_step(old(self).model(), v),
    {
        if self.abandoned || self.taken || self.value.is_some() {
            return false;
        }
        if self.waiter {
            self.wake_pending = true;
        }
        self.value = Some(v);
        true
    }

    /// Non-blocking readiness check.
    pub fn is_set(&self) -> (r: bool)
        ensures
            r == (self.model().value is Some && !self.model().taken),
    {
        self.value.is_some() && !self.taken
    }

    /// Consumer side: register the waiter, then re-check the slot — in that
    /// order, so a set racing with the registration is never missed. Takes
    /// the value out at most once over the cell's lifetime.
    pub fn poll(&mut self) -> (r: Option<T>)
        ensures
            (final(self).model(), r) == poll_step(old(self).model()),
    {
        self.waiter = true;
        if self.taken {
            return None;
        }
        match self.value.take() {
            Some(v) => {
                self.taken = true;
                self.wake_pending = false;
                Some(v)
            },
            None => None,
        }
    }

    /// Consumer side: give the cell up before (or after) resolution. A later
    /// set stores nothing and faults nothing.
    pub fn abandon(&mut self)
        ensures
            final(self).model() == abandon_step(old(self).model()),
    {
        self.value = None;
        self.abandoned = true;
        self.wake_pending = false;
    }
}

/// Set-once: after a successful set, a second set stores nothing and changes
/// nothing, and the consumer still takes the first value.
pub proof fn lemma_set_once<T>(c: CellState<T>, v1: T, v2: T)
    requires
        c.value is None,
        !c.taken,
        !c.abandoned,
    ensures
        ({
            let (c1, s1) = set_step(c, v1);
            let (c2, s2) = set_step(c1, v2);
            &&& s1
            &&& !s2
            &&& c2 == c1
            &&& poll_step(c2).1 == Some(v1)
        }),
{
}

/// No lost wakeup: whichever way a set and a registering poll interleave,
/// the consumer observes the value exactly once — the poll after the set
/// takes it, and every later poll yields nothing.
pub proof fn lemma_no_lost_wakeup<T>(c: CellState<T>, v: T, set_first: bool)
    requires
        c.value is None,
        !c.taken,
        !c.abandoned,
    ensures
        set_first ==> ({
            let c1 = set_step(c, v).0;
            let (c2, r1) = poll_step(c1);
            &&& r1 == Some(v)
            &&& poll_step(c2).1 is None
        }),
        !set_first ==> ({
            let (c1, r0) = poll_step(c);
            let (c2, stored) = set_step(c1, v);
            let (c3, r1) = poll_step(c2);
            &&& r0 is None
            &&& stored
            &&& c2.wake_pending
            &&& r1 == Some(v)
            &&& poll_step(c3).1 is None
        }),
{
}

/// Cancellation safety: a set after the consumer abandoned the cell stores
/// nothing, faults nothing, and the discarded value is never observable.
pub proof fn lemma_abandon_then_set<T>(c: CellState<T>, v: T)
    ensures
        ({
            let c1 = abandon_step(c);
            let (c2, stored) = set_step(c1, v);
            &&& !stored
            &&& c2 == c1
            &&& c2.abandoned
            &&& c2.value is None
            &&& poll_step(c2).1 is None
        }),
{
}

} // verus!
