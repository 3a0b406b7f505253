//! The one open pairing window, in memory only: its code, its expiry, the attempts made
//! against the code, the one attempt per source per two seconds, and the device that
//! consumed it. Instants are nanoseconds since the Unix epoch; a source is its address
//! as 128 bits.

use vstd::prelude::*;
use crate::pair::code::{glyph_spec, nibble, Code, WordList};
use crate::pair::{PairError, MAX_ATTEMPTS, SOURCE_INTERVAL_SECS, TTL_SECS};
use crate::text::string_of;

verus! {

/// The earliest instant the date-time crate holds, in nanoseconds.
pub const TS_MIN_NS: i128 = -377_705_023_201_000_000_000;

/// The latest instant the date-time crate holds, in nanoseconds.
pub const TS_MAX_NS: i128 = 253_402_207_200_999_999_999;

/// An instant the date-time crate holds.
pub open spec fn instant(ns: i128) -> bool {
    TS_MIN_NS <= ns <= TS_MAX_NS
}

/// The window as plain values.
pub struct PairingView {
    pub id: Seq<char>,
    pub code: u16,
    pub created_at: i128,
    pub expires_at: i128,
    pub attempts: u8,
    pub consumed_by: Option<Seq<char>>,
    pub consumed_at: Option<i128>,
    pub generation: u32,
    pub sources: Seq<(u128, i128)>,
}

/// The one open pairing window. The code is kept for the length of the window because
/// the window has to be shown again on request; it is never written anywhere, and the
/// window has no `Debug`, so it cannot be printed.
pub struct Pairing {
    id: String,
    code: Code,
    created_at: i128,
    expires_at: i128,
    attempts: u8,
    consumed_by: Option<String>,
    consumed_at: Option<i128>,
    generation: u32,
    sources: Vec<(u128, i128)>,
}

impl View for Pairing {
    type V = PairingView;

    closed spec fn view(&self) -> PairingView {
        PairingView {
            id: self.id@,
            code: self.code@,
            created_at: self.created_at,
            expires_at: self.expires_at,
            attempts: self.attempts,
            consumed_by: match self.consumed_by {
                Some(d) => Some(d@),
                None => None,
            },
            consumed_at: self.consumed_at,
            generation: self.generation,
            sources: self.sources@,
        }
    }
}

/// What a caller may see of a window: both renderings of the code, the expiry, the
/// attempt count and the outcome.
#[derive(Debug, Clone, PartialEq, Eq)]
pub struct PairingSnapshot {
    /// The window's ULID.
    pub id: String,
    /// The four glyphs, in order.
    pub emoji: [&'static str; 4],
    /// Their four labels, in the same order.
    pub labels: [&'static str; 4],
    /// The two words, in order.
    pub words: [String; 2],
    /// The URL a device opens to reach this node: what the QR code encodes.
    pub url: String,
    /// When the window opened (RFC 3339 UTC).
    pub created_at: String,
    /// When it closes (RFC 3339 UTC).
    pub expires_at: String,
    /// Attempts made against the current code.
    pub attempts: u8,
    /// How many times the code has been replaced after exhaustion.
    pub generation: u32,
    /// The device that paired, once one has.
    pub consumed_by: Option<String>,
    /// When it did.
    pub consumed_at: Option<String>,
}

/// A window's standing invariant: the attempts against the current code never exceed
/// the limit, and it expires after it opened.
pub open spec fn window_ok(w: PairingView) -> bool {
    &&& w.attempts <= MAX_ATTEMPTS
    &&& w.created_at < w.expires_at
    &&& instant(w.created_at)
    &&& instant(w.expires_at)
}

/// Whether the window has passed its expiry at `now`.
pub open spec fn expired_at(w: PairingView, now: i128) -> bool {
    now >= w.expires_at
}

/// Whether a device can pair at `now`: not expired and not yet consumed.
pub open spec fn open_at(w: PairingView, now: i128) -> bool {
    !expired_at(w, now) && w.consumed_by is None
}

/// The length a window is opened for, in whole seconds: `ttl` clamped to two minutes,
/// its fraction of a second dropped.
pub open spec fn ttl_secs(secs: u64, nanos: u32) -> u64 {
    if secs >= TTL_SECS { TTL_SECS } else { secs }
}

/// The sources that tried within the last two seconds before `now`: the entries after
/// the horizon, in order.
pub open spec fn recent(sources: Seq<(u128, i128)>, now: i128) -> Seq<(u128, i128)>
    decreases sources.len(),
{
    let horizon: int = if now - SOURCE_INTERVAL_SECS * 1_000_000_000 >= TS_MIN_NS {
        now - SOURCE_INTERVAL_SECS * 1_000_000_000
    } else {
        TS_MIN_NS as int
    };
    if sources.len() == 0 {
        Seq::empty()
    } else if sources.last().1 > horizon {
        recent(sources.drop_last(), now).push(sources.last())
    } else {
        recent(sources.drop_last(), now)
    }
}

/// Some entry of `sources` is `source`.
pub open spec fn tried(sources: Seq<(u128, i128)>, source: u128) -> bool {
    exists|i: int| 0 <= i < sources.len() && #[trigger] sources[i].0 == source
}

/// What counting an attempt from `source` at `now` does to the window, and its answer:
/// refused untouched when the window is closed; otherwise the sources older than two
/// seconds are forgotten, and a source seen in the last two seconds is refused; otherwise
/// the source is remembered, and the attempt either counted (answered with the current
/// code) or, when the code's attempts are spent, refused after the code is replaced by a
/// fresh one, its attempts reset and its generation advanced.
pub open spec fn begun(old: PairingView, new: PairingView, source: u128, now: i128, r: Result<u16, PairError>) -> bool {
    if !open_at(old, now) {
        new == old && r == Err::<u16, PairError>(PairError::Closed)
    } else {
        let kept = recent(old.sources, now);
        if tried(kept, source) {
            new == PairingView { sources: kept, ..old } && r == Err::<u16, PairError>(PairError::RateLimited)
        } else if old.attempts >= MAX_ATTEMPTS {
            &&& new == PairingView {
                code: new.code,
                attempts: 0,
                generation: if old.generation == u32::MAX { u32::MAX } else { (old.generation + 1) as u32 },
                sources: kept.push((source, now)),
                ..old
            }
            &&& r == Err::<u16, PairError>(PairError::Exhausted)
        } else {
            &&& new == PairingView {
                attempts: (old.attempts + 1) as u8,
                sources: kept.push((source, now)),
                ..old
            }
            &&& r == Ok::<u16, PairError>(old.code)
        }
    }
}

/// The window after a counted attempt failed: the code replaced (as by exhaustion) when
/// its attempts are spent, otherwise unchanged; and whether it was replaced.
pub open spec fn failed(old: PairingView, new: PairingView, replaced: bool) -> bool {
    if old.attempts >= MAX_ATTEMPTS {
        &&& replaced
        &&& new == PairingView {
            code: new.code,
            attempts: 0,
            generation: if old.generation == u32::MAX { u32::MAX } else { (old.generation + 1) as u32 },
            ..old
        }
    } else {
        !replaced && new == old
    }
}

impl Pairing {
    /// The window's standing invariant.
    pub closed spec fn wf(&self) -> bool {
        window_ok(self@)
    }

    /// A window with the code `code`, opened at `now` for `secs` seconds and `nanos`
    /// nanoseconds clamped to two minutes; a length under one second is refused, as is an
    /// expiry past the latest instant.
    pub fn open_with(code: Code, id: String, secs: u64, nanos: u32, now: i128) -> (r: Result<Pairing, PairError>)
        requires
            instant(now),
            nanos < 1_000_000_000,
        ensures
            match r {
                Ok(w) => {
                    &&& secs >= 1
                    &&& now + ttl_secs(secs, nanos) * 1_000_000_000 <= TS_MAX_NS
                    &&& w.wf()
                    &&& w@ == PairingView {
                        id: id@,
                        code: code@,
                        created_at: now,
                        expires_at: (now + ttl_secs(secs, nanos) * 1_000_000_000) as i128,
                        attempts: 0,
                        consumed_by: None,
                        consumed_at: None,
                        generation: 0,
                        sources: Seq::empty(),
                    }
                },
                Err(e) => e == PairError::Ttl && (secs < 1 || now + ttl_secs(secs, nanos) * 1_000_000_000
                    > TS_MAX_NS),
            },
    {
        if secs < 1 {
            return Err(PairError::Ttl);
        }
        let ttl = if secs >= TTL_SECS { TTL_SECS } else { secs };
        let span = (ttl as i128) * 1_000_000_000;
        if now > TS_MAX_NS - span {
            return Err(PairError::Ttl);
        }
        Ok(Pairing {
            id,
            code,
            created_at: now,
            expires_at: now + span,
            attempts: 0,
            consumed_by: None,
            consumed_at: None,
            generation: 0,
            sources: Vec::new(),
        })
    }

    /// Open a window at `now` with a fresh code from the platform CSPRNG.
    pub fn open(id: String, secs: u64, nanos: u32, now: i128) -> (r: Result<Pairing, PairError>)
        requires
            instant(now),
            nanos < 1_000_000_000,
        ensures
            match r {
                Ok(w) => {
                    &&& secs >= 1
                    &&& now + ttl_secs(secs, nanos) * 1_000_000_000 <= TS_MAX_NS
                    &&& w.wf()
                    &&& w@.id == id@
                    &&& w@.created_at == now
                    &&& w@.expires_at == now + ttl_secs(secs, nanos) * 1_000_000_000
                    &&& w@.attempts == 0
                    &&& w@.consumed_by is None
                    &&& w@.consumed_at is None
                    &&& w@.generation == 0
                    &&& w@.sources.len() == 0
                },
                Err(e) => e == PairError::Ttl && (secs < 1 || now + ttl_secs(secs, nanos) * 1_000_000_000
                    > TS_MAX_NS),
            },
    {
        if secs < 1 {
            return Err(PairError::Ttl);
        }
        Self::open_with(Code::random(), id, secs, nanos, now)
    }

    /// The window's ULID, the subject of its audit rows.
    pub fn id(&self) -> (r: &str)
        ensures
            r@ == self@.id,
    {
        self.id.as_str()
    }

    /// The current code, for the surface that displays it. Never log it.
    pub fn code(&self) -> (r: Code)
        ensures
            r@ == self@.code,
    {
        self.code
    }

    /// When the window closes.
    pub fn expires_at(&self) -> (r: i128)
        ensures
            r == self@.expires_at,
    {
        self.expires_at
    }

    /// Whether the window has passed its expiry.
    pub fn expired(&self, now: i128) -> (r: bool)
        ensures
            r == expired_at(self@, now),
    {
        now >= self.expires_at
    }

    /// Whether a device can pair right now: not expired and not yet consumed.
    pub fn is_open(&self, now: i128) -> (r: bool)
        ensures
            r == open_at(self@, now),
    {
        !self.expired(now) && self.consumed_by.is_none()
    }

    /// The device that paired through this window, if one has.
    pub fn consumed_by(&self) -> (r: Option<&str>)
        ensures
            match r {
                Some(d) => self@.consumed_by == Some(d@),
                None => self@.consumed_by is None,
            },
    {
        match &self.consumed_by {
            Some(d) => Some(d.as_str()),
            None => None,
        }
    }

    /// Attempts against the current code.
    pub fn attempts(&self) -> (r: u8)
        ensures
            r == self@.attempts,
    {
        self.attempts
    }

    /// How many codes have been issued after the first.
    pub fn generation(&self) -> (r: u32)
        ensures
            r == self@.generation,
    {
        self.generation
    }

    /// The window as a caller may see it, with the URL the node is reached at and the
    /// word list the code's words come from.
    pub fn snapshot(&self, url: String, list: &WordList) -> (r: PairingSnapshot)
        requires
            list.wf(),
        ensures
            r.id@ == self@.id,
            forall|k: int| 0 <= k < 4 ==> r.emoji[k]@ == glyph_spec(nibble(self@.code, k)).glyph@ && r.labels[k]@
                == glyph_spec(nibble(self@.code, k)).label@,
            r.words[0]@ == list.view()[(self@.code / 256) as int],
            r.words[1]@ == list.view()[(self@.code % 256) as int],
            r.url == url,
            r.created_at@ == crate::log::writer::ts_text(self@.created_at),
            r.expires_at@ == crate::log::writer::ts_text(self@.expires_at),
            r.attempts == self@.attempts,
            r.generation == self@.generation,
            match r.consumed_by {
                Some(d) => self@.consumed_by == Some(d@),
                None => self@.consumed_by is None,
            },
            match r.consumed_at {
                Some(t) => self@.consumed_at matches Some(at) && t@ == crate::log::writer::ts_text(at),
                None => self@.consumed_at is None,
            },
    {
        let g = self.code.glyphs();
        let w = self.code.words(list);
        PairingSnapshot {
            id: self.id.clone(),
            emoji: [g[0].glyph, g[1].glyph, g[2].glyph, g[3].glyph],
            labels: [g[0].label, g[1].label, g[2].label, g[3].label],
            words: [string_of(crate::text::chars_of(w[0]).as_slice()), string_of(crate::text::chars_of(w[1]).as_slice())],
            url,
            created_at: crate::log::writer::format_ts(self.created_at),
            expires_at: crate::log::writer::format_ts(self.expires_at),
            attempts: self.attempts,
            generation: self.generation,
            consumed_by: match &self.consumed_by {
                Some(d) => Some(d.clone()),
                None => None,
            },
            consumed_at: match self.consumed_at {
                Some(t) => Some(crate::log::writer::format_ts(t)),
                None => None,
            },
        }
    }

    fn rotate(&mut self)
        ensures
            final(self)@ == (PairingView {
                code: final(self)@.code,
                attempts: 0,
                generation: if old(self)@.generation == u32::MAX {
                    u32::MAX
                } else {
                    (old(self)@.generation + 1) as u32
                },
                ..old(self)@
            }),
    {
        self.code = Code::random();
        self.attempts = 0;
        if self.generation < u32::MAX {
            self.generation = self.generation + 1;
        }
    }

    /// Count an attempt from `source` at `now` and hand back the code the key exchange
    /// runs on. Refuses when the window is closed, when the source tried within the last
    /// two seconds, and when the current code's five attempts are spent, in which case
    /// the code is replaced first, so the refusal names a code that no longer exists.
    ///
    /// An attempt is counted when it begins, not when it is confirmed: the reply to its
    /// first message already lets the other side learn whether its guess was right.
    pub fn begin_attempt(&mut self, source: u128, now: i128) -> (r: Result<Code, PairError>)
        requires
            old(self).wf(),
            instant(now),
        ensures
            final(self).wf(),
            begun(old(self)@, final(self)@, source, now, match r {
                Ok(c) => Ok(c@),
                Err(e) => Err(e),
            }),
    {
        if !self.is_open(now) {
            return Err(PairError::Closed);
        }
        let interval: i128 = (SOURCE_INTERVAL_SECS as i128) * 1_000_000_000;
        let horizon: i128 = if now - interval >= TS_MIN_NS { now - interval } else { TS_MIN_NS };
        let ghost all = self.sources@;
        let mut kept: Vec<(u128, i128)> = Vec::new();
        let mut seen = false;
        let mut k: usize = 0;
        while k < self.sources.len()
            invariant
                k <= self.sources@.len(),
                all == self.sources@,
                kept@ == recent(all.take(k as int), now),
                seen == tried(kept@, source),
                horizon == (if now - SOURCE_INTERVAL_SECS * 1_000_000_000 >= TS_MIN_NS {
                    now - SOURCE_INTERVAL_SECS * 1_000_000_000
                } else {
                    TS_MIN_NS as int
                }),
            decreases self.sources@.len() - k,
        {
            proof {
                assert(all.take(k + 1).drop_last() =~= all.take(k as int));
            }
            let entry = self.sources[k];
            if entry.1 > horizon {
                let ghost before = kept@;
                kept.push(entry);
                assert(kept@ == before.push(entry));
                if entry.0 == source {
                    seen = true;
                    assert(kept@[kept@.len() - 1].0 == source);
                } else {
                    assert(tried(kept@, source) == tried(before, source)) by {
                        if tried(kept@, source) {
                            let i = choose|i: int| 0 <= i < kept@.len() && #[trigger] kept@[i].0 == source;
                            assert(i < before.len());
                            assert(before[i] == kept@[i]);
                        }
                        if tried(before, source) {
                            let i = choose|i: int| 0 <= i < before.len() && #[trigger] before[i].0 == source;
                            assert(kept@[i] == before[i]);
                        }
                    }
                }
            }
            k = k + 1;
        }
        proof {
            assert(all.take(all.len() as int) =~= all);
        }
        self.sources = kept;
        if seen {
            return Err(PairError::RateLimited);
        }
        self.sources.push((source, now));
        if self.attempts >= MAX_ATTEMPTS {
            self.rotate();
            return Err(PairError::Exhausted);
        }
        self.attempts = self.attempts + 1;
        Ok(self.code)
    }

    /// Record that a counted attempt failed: a wrong confirmation, or a peer that went
    /// away without one. Returns whether this was the fifth failure and the code was
    /// replaced.
    pub fn record_failure(&mut self) -> (r: bool)
        requires
            old(self).wf(),
        ensures
            final(self).wf(),
            failed(old(self)@, final(self)@, r),
    {
        if self.attempts >= MAX_ATTEMPTS {
            self.rotate();
            return true;
        }
        false
    }

    /// The checks a confirmation meets before the node seals its reply, in order: the
    /// code it was made against (issued at `generation`) is still the current one, else
    /// [`PairError::Exhausted`]; the window is open, else [`PairError::Closed`]; the
    /// confirmation verified (`verified`, what the exchange's check found), else the
    /// attempt counts as failed and the answer is [`PairError::WrongCode`].
    pub fn check_confirm(&mut self, generation: u32, now: i128, verified: bool) -> (r: Result<(), PairError>)
        requires
            old(self).wf(),
        ensures
            final(self).wf(),
            old(self)@.generation != generation ==> r == Err::<(), PairError>(PairError::Exhausted)
                && final(self)@ == old(self)@,
            old(self)@.generation == generation && !open_at(old(self)@, now) ==> r == Err::<(), PairError>(
                PairError::Closed,
            ) && final(self)@ == old(self)@,
            old(self)@.generation == generation && open_at(old(self)@, now) && !verified ==> r == Err::<
                (),
                PairError,
            >(PairError::WrongCode) && exists|replaced: bool| failed(old(self)@, final(self)@, replaced),
            old(self)@.generation == generation && open_at(old(self)@, now) && verified ==> r is Ok
                && final(self)@ == old(self)@,
    {
        if self.generation != generation {
            return Err(PairError::Exhausted);
        }
        if !self.is_open(now) {
            return Err(PairError::Closed);
        }
        if !verified {
            let _ = self.record_failure();
            return Err(PairError::WrongCode);
        }
        Ok(())
    }

    /// Record the first success: the window is consumed and no further attempt is
    /// accepted.
    pub fn consume(&mut self, device: &str, now: i128)
        requires
            old(self).wf(),
        ensures
            final(self).wf(),
            final(self)@ == (PairingView { consumed_by: Some(device@), consumed_at: Some(now), ..old(self)@ }),
    {
        self.consumed_by = Some(device.to_string());
        self.consumed_at = Some(now);
    }
}

/// A closed window refuses every attempt and is left as it was: an expired window, or one
/// a device has already consumed, can never be guessed against.
pub proof fn lemma_a_closed_window_refuses(
    w0: PairingView,
    w1: PairingView,
    source: u128,
    now: i128,
    r: Result<u16, PairError>,
)
    requires
        begun(w0, w1, source, now, r),
        !open_at(w0, now),
    ensures
        r == Err::<u16, PairError>(PairError::Closed),
        w1 == w0,
{
}

/// One attempt per source per two seconds: a source that began an attempt, counted or
/// refused as exhausted, is refused as rate-limited if it tries again less than two
/// seconds later while the window is still open.
pub proof fn lemma_one_attempt_per_source_per_interval(
    w0: PairingView,
    w1: PairingView,
    w2: PairingView,
    source: u128,
    t1: i128,
    t2: i128,
    r1: Result<u16, PairError>,
    r2: Result<u16, PairError>,
)
    requires
        begun(w0, w1, source, t1, r1),
        r1 is Ok || r1 == Err::<u16, PairError>(PairError::Exhausted),
        instant(t1),
        t1 > TS_MIN_NS,
        t1 <= t2 < t1 + SOURCE_INTERVAL_SECS * 1_000_000_000,
        open_at(w1, t2),
        begun(w1, w2, source, t2, r2),
    ensures
        r2 == Err::<u16, PairError>(PairError::RateLimited),
{
    let kept = recent(w1.sources, t2);
    lemma_recent_keeps_last(w1.sources, t2);
    assert(w1.sources.last() == (source, t1));
    assert(kept.last() == (source, t1));
    assert(kept[kept.len() - 1].0 == source);
}

proof fn lemma_recent_keeps_last(s: Seq<(u128, i128)>, now: i128)
    requires
        s.len() > 0,
        s.last().1 > (if now - SOURCE_INTERVAL_SECS * 1_000_000_000 >= TS_MIN_NS {
            now - SOURCE_INTERVAL_SECS * 1_000_000_000
        } else {
            TS_MIN_NS as int
        }),
    ensures
        recent(s, now).len() > 0,
        recent(s, now).last() == s.last(),
{
}

/// The attempts against a code are bounded: a window that holds its invariant keeps it
/// through every attempt, so no code is ever tried more than five times.
pub proof fn lemma_attempts_stay_bounded(
    w0: PairingView,
    w1: PairingView,
    source: u128,
    now: i128,
    r: Result<u16, PairError>,
)
    requires
        window_ok(w0),
        begun(w0, w1, source, now, r),
    ensures
        w1.attempts <= MAX_ATTEMPTS,
        r is Ok ==> w1.attempts == w0.attempts + 1 && w0.attempts < MAX_ATTEMPTS,
{
}

/// A consumed window stays consumed: no attempt clears who paired through it.
pub proof fn lemma_consumed_stays_consumed(
    w0: PairingView,
    w1: PairingView,
    source: u128,
    now: i128,
    r: Result<u16, PairError>,
)
    requires
        w0.consumed_by is Some,
        begun(w0, w1, source, now, r),
    ensures
        w1.consumed_by == w0.consumed_by,
        r == Err::<u16, PairError>(PairError::Closed),
{
}

} // verus!
