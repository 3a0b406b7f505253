//! The per-request resource limits: the instruction count and the wall clock, checked by
//! a hook every [`TICK`] instructions and by SQLite's progress handler. A tripped limit is
//! remembered, so a handler that catches the error still fails the request, and the first
//! verdict stands.
//!
//! The clock is read by the caller and handed in as milliseconds, so every decision here
//! is a function of its inputs.

use vstd::prelude::*;

verus! {

/// How many VM instructions run between two hook calls while nothing is wrong.
pub const TICK: u32 = 1000;

/// Which of the limits was exceeded.
#[derive(Debug, Clone, Copy, PartialEq, Eq)]
pub enum LimitKind {
    /// `lua.max_instructions`.
    Instructions,
    /// `lua.max_memory_mb`.
    Memory,
    /// `lua.max_seconds`.
    Seconds,
}

/// The audit row's spelling of a limit.
pub open spec fn kind_text(k: LimitKind) -> Seq<char> {
    match k {
        LimitKind::Instructions => "instructions"@,
        LimitKind::Memory => "memory"@,
        LimitKind::Seconds => "seconds"@,
    }
}

impl LimitKind {
    /// The audit row's spelling.
    pub fn as_str(self) -> (r: &'static str)
        ensures
            r@ == kind_text(self),
    {
        match self {
            LimitKind::Instructions => "instructions",
            LimitKind::Memory => "memory",
            LimitKind::Seconds => "seconds",
        }
    }
}

/// One VM's limit state, armed once per run.
#[derive(Debug)]
pub struct Limits {
    max_instructions: u64,
    max_seconds: u64,
    executed: u64,
    deadline_ms: u128,
    tripped: Option<LimitKind>,
}

/// The limit state as data.
pub struct LimitsView {
    pub max_instructions: u64,
    pub max_seconds: u64,
    pub executed: u64,
    pub deadline_ms: int,
    pub tripped: Option<LimitKind>,
}

impl View for Limits {
    type V = LimitsView;

    closed spec fn view(&self) -> LimitsView {
        LimitsView {
            max_instructions: self.max_instructions,
            max_seconds: self.max_seconds,
            executed: self.executed,
            deadline_ms: self.deadline_ms as int,
            tripped: self.tripped,
        }
    }
}

/// The verdict a run keeps: the first one recorded.
pub open spec fn kept(old: Option<LimitKind>, kind: LimitKind) -> Option<LimitKind> {
    match old {
        Some(k) => Some(k),
        None => Some(kind),
    }
}

impl Limits {
    /// Fresh and disarmed: the deadline is `now_ms`, so `arm` has to run first.
    pub fn new(max_instructions: u64, max_seconds: u64, now_ms: u64) -> (r: Limits)
        ensures
            r@.max_instructions == max_instructions,
            r@.max_seconds == max_seconds,
            r@.executed == 0,
            r@.deadline_ms == now_ms,
            r@.tripped is None,
    {
        Limits { max_instructions, max_seconds, executed: 0, deadline_ms: now_ms as u128, tripped: None }
    }

    /// Start a run at `now_ms`: reset the count, set the deadline `max_seconds` ahead,
    /// forget any earlier verdict.
    pub fn arm(&mut self, now_ms: u64)
        ensures
            final(self)@.max_instructions == old(self)@.max_instructions,
            final(self)@.max_seconds == old(self)@.max_seconds,
            final(self)@.executed == 0,
            final(self)@.deadline_ms == now_ms + old(self)@.max_seconds * 1000,
            final(self)@.tripped is None,
    {
        self.executed = 0;
        self.deadline_ms = now_ms as u128 + self.max_seconds as u128 * 1000;
        self.tripped = None;
    }

    /// The limit that was exceeded during this run, if any.
    pub fn tripped(&self) -> (r: Option<LimitKind>)
        ensures
            r == self@.tripped,
    {
        self.tripped
    }

    /// Record a verdict. The first one stands.
    pub fn trip(&mut self, kind: LimitKind)
        ensures
            final(self)@ == (LimitsView { tripped: kept(old(self)@.tripped, kind), ..old(self)@ }),
    {
        if self.tripped.is_none() {
            self.tripped = Some(kind);
        }
    }

    /// Instructions counted so far, to the nearest tick.
    pub fn executed(&self) -> (r: u64)
        ensures
            r == self@.executed,
    {
        self.executed
    }

    /// `lua.max_instructions`.
    pub fn max_instructions(&self) -> (r: u64)
        ensures
            r == self@.max_instructions,
    {
        self.max_instructions
    }

    /// `lua.max_seconds`.
    pub fn max_seconds(&self) -> (r: u64)
        ensures
            r == self@.max_seconds,
    {
        self.max_seconds
    }

    /// Whether the wall clock has run out at `now_ms` — the progress handler's question.
    /// When it has, the verdict is recorded first, so the request fails even if the
    /// handler catches the SQL error.
    pub fn over_time(&mut self, now_ms: u64) -> (r: bool)
        ensures
            r == (now_ms > old(self)@.deadline_ms),
            final(self)@ == (if r {
                LimitsView { tripped: kept(old(self)@.tripped, LimitKind::Seconds), ..old(self)@ }
            } else {
                old(self)@
            }),
    {
        if now_ms as u128 > self.deadline_ms {
            self.trip(LimitKind::Seconds);
            true
        } else {
            false
        }
    }

    /// One call of the hook at `now_ms`: the limit that fails the run now, if any. Once a
    /// limit has tripped every call fails again with it; otherwise one more tick is
    /// counted, and the instruction count is checked before the clock.
    pub fn hook(&mut self, now_ms: u64) -> (r: Option<LimitKind>)
        ensures
            match old(self)@.tripped {
                Some(k) => r == Some(k) && final(self)@ == old(self)@,
                None => {
                    let counted = if old(self)@.executed + TICK > u64::MAX {
                        u64::MAX as int
                    } else {
                        old(self)@.executed + TICK
                    };
                    let verdict = if counted > old(self)@.max_instructions {
                        Some(LimitKind::Instructions)
                    } else if now_ms > old(self)@.deadline_ms {
                        Some(LimitKind::Seconds)
                    } else {
                        None
                    };
                    &&& r == verdict
                    &&& final(self)@.executed == (old(self)@.executed + TICK) % 0x1_0000_0000_0000_0000
                    &&& final(self)@.tripped == verdict
                    &&& final(self)@.max_instructions == old(self)@.max_instructions
                    &&& final(self)@.max_seconds == old(self)@.max_seconds
                    &&& final(self)@.deadline_ms == old(self)@.deadline_ms
                },
            },
    {
        if let Some(kind) = self.tripped {
            return Some(kind);
        }
        let previous = self.executed;
        self.executed = previous.wrapping_add(TICK as u64);
        let counted = previous.saturating_add(TICK as u64);
        let verdict = if counted > self.max_instructions {
            Some(LimitKind::Instructions)
        } else if now_ms as u128 > self.deadline_ms {
            Some(LimitKind::Seconds)
        } else {
            None
        };
        self.tripped = verdict;
        verdict
    }
}

/// A verdict, once recorded, is never replaced within a run: tripping again, asking the
/// clock again, or calling the hook again all leave it as it was.
pub proof fn lemma_first_verdict_stands(old: Option<LimitKind>, kind: LimitKind)
    ensures
        old is Some ==> kept(old, kind) == old,
        kept(old, kind) is Some,
{
}

} // verus!
