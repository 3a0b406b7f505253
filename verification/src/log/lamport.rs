//! The per-app Lamport counter: `lam = max(lam_local, lam_seen) + 1` on write,
//! `lam_local = max(lam_local, seen)` on receipt, saturating rather than wrapping.

use vstd::prelude::*;

verus! {

/// The larger of a counter value and a value seen in an event.
pub open spec fn observed(value: u64, seen: u64) -> u64 {
    if value >= seen { value } else { seen }
}

/// The counter after one tick: one more, held at `u64::MAX` rather than wrapping.
pub open spec fn ticked(value: u64) -> u64 {
    if value == u64::MAX { u64::MAX } else { (value + 1) as u64 }
}

/// One node's Lamport counter for one app.
#[derive(Debug, Clone, Copy, PartialEq, Eq, PartialOrd, Ord)]
pub struct Lamport(u64);

impl View for Lamport {
    type V = u64;

    closed spec fn view(&self) -> u64 {
        self.0
    }
}

impl Default for Lamport {
    fn default() -> (r: Self)
        ensures
            r@ == 0,
    {
        Lamport(0)
    }
}

impl Lamport {
    /// The counter holding `value`.
    pub closed spec fn spec_new(value: u64) -> Lamport {
        Lamport(value)
    }

    pub proof fn lemma_spec_new(value: u64)
        ensures
            Lamport::spec_new(value)@ == value,
            forall|l: Lamport| l@ == value ==> l == Lamport::spec_new(value),
    {
    }

    /// A counter resuming from a known value. Zero on a log never written.
    pub fn new(value: u64) -> (r: Self)
        ensures
            r@ == value,
    {
        Lamport(value)
    }

    /// Fold in the `lam` of an event this node has seen. A lower value cannot pull the
    /// counter back.
    pub fn observe(&mut self, seen: u64)
        ensures
            final(self)@ == observed(old(self)@, seen),
    {
        if seen > self.0 {
            self.0 = seen;
        }
    }

    /// The `lam` for the next event this node writes, having advanced the counter.
    pub fn tick(&mut self) -> (r: u64)
        ensures
            final(self)@ == ticked(old(self)@),
            r == final(self)@,
    {
        if self.0 < u64::MAX {
            self.0 = self.0 + 1;
        }
        self.0
    }

    /// The counter's current value: the `lam` of the last event written or seen.
    pub fn get(self) -> (r: u64)
        ensures
            r == self@,
    {
        self.0
    }
}

/// Observing never moves the counter backwards, and leaves it at or above what was seen.
pub proof fn lemma_observe_is_monotonic(value: u64, seen: u64)
    ensures
        observed(value, seen) >= value,
        observed(value, seen) >= seen,
        observed(value, seen) == value || observed(value, seen) == seen,
{
}

/// The next event written after an event was seen is causally after it: its `lam` is
/// greater than the seen one, unless the counter has reached `u64::MAX`, where it stays.
pub proof fn lemma_tick_after_observe_is_later(value: u64, seen: u64)
    ensures
        seen < u64::MAX ==> ticked(observed(value, seen)) > seen,
        ticked(observed(value, seen)) >= value,
        observed(value, seen) == u64::MAX ==> ticked(observed(value, seen)) == u64::MAX,
{
}

/// Ticking never goes backwards, and strictly advances below the ceiling.
pub proof fn lemma_tick_is_monotonic(value: u64)
    ensures
        ticked(value) >= value,
        value < u64::MAX ==> ticked(value) == value + 1,
{
}

/// Observing is idempotent and order-free: folding two seen values in either order, or
/// one twice, gives the same counter.
pub proof fn lemma_observe_commutes(value: u64, a: u64, b: u64)
    ensures
        observed(observed(value, a), b) == observed(observed(value, b), a),
        observed(observed(value, a), a) == observed(value, a),
{
}

} // verus!
