//! Hybrid logical clock: timestamps that track wall time while staying
//! strictly monotone under clock skew, totally ordered by
//! (physical_ms, logical, actor_id).

use vstd::prelude::*;
use crate::bytes_be::{
    lemma_be_bytes_properties, spec_u128_to_be_bytes, spec_u32_to_be_bytes,
    spec_u64_to_be_bytes, u128_from_be_bytes, u128_to_be_bytes, u32_from_be_bytes,
    u32_to_be_bytes, u64_from_be_bytes, u64_to_be_bytes,
};

verus! {

/// A globally unique timestamp: wall-clock milliseconds, a logical counter
/// for events within the same millisecond, and the generating actor's
/// 128-bit identifier for deterministic tie-breaking.
#[derive(Debug, Clone, Copy, PartialEq, Eq, Hash, PartialOrd, Ord, Structural)]
pub struct Timestamp {
    /// Physical wall-clock time in milliseconds since the Unix epoch
    pub physical_ms: u64,
    /// Logical counter for events at the same physical time
    pub logical: u32,
    /// Actor identifier, compared numerically for tie-breaking
    pub actor_id: u128,
}

/// The total order on timestamps: lexicographic on
/// (physical_ms, logical, actor_id).
pub open spec fn ts_lt(a: Timestamp, b: Timestamp) -> bool {
    ||| a.physical_ms < b.physical_ms
    ||| (a.physical_ms == b.physical_ms && a.logical < b.logical)
    ||| (a.physical_ms == b.physical_ms && a.logical == b.logical && a.actor_id < b.actor_id)
}

pub open spec fn ts_le(a: Timestamp, b: Timestamp) -> bool {
    ts_lt(a, b) || a == b
}

/// The largest (physical_ms, logical) pair an actor can represent; past it
/// the clock can no longer grow strictly.
pub open spec fn ts_ceiling(t: Timestamp) -> bool {
    t.physical_ms == u64::MAX && t.logical == u32::MAX
}

/// The smallest timestamp strictly above `t` with the same actor, saturating
/// only at the representation ceiling.
pub open spec fn ts_succ(t: Timestamp) -> Timestamp {
    if t.logical < u32::MAX {
        Timestamp { physical_ms: t.physical_ms, logical: (t.logical + 1) as u32, actor_id: t.actor_id }
    } else if t.physical_ms < u64::MAX {
        Timestamp { physical_ms: (t.physical_ms + 1) as u64, logical: 0, actor_id: t.actor_id }
    } else {
        t
    }
}

/// Clock state after a local event at wall reading `now_ms`.
pub open spec fn tick_post(last: Timestamp, now_ms: u64) -> Timestamp {
    if now_ms > last.physical_ms {
        Timestamp { physical_ms: now_ms, logical: 0, actor_id: last.actor_id }
    } else {
        ts_succ(last)
    }
}

/// Clock state after observing remote timestamp `recv` at wall reading
/// `now_ms`.
pub open spec fn update_post(last: Timestamp, recv: Timestamp, now_ms: u64) -> Timestamp {
    if now_ms > last.physical_ms && now_ms > recv.physical_ms {
        Timestamp { physical_ms: now_ms, logical: 0, actor_id: last.actor_id }
    } else if last.physical_ms == recv.physical_ms {
        let l = if last.logical >= recv.logical { last.logical } else { recv.logical };
        ts_succ(Timestamp { physical_ms: last.physical_ms, logical: l, actor_id: last.actor_id })
    } else if recv.physical_ms > last.physical_ms {
        ts_succ(Timestamp { physical_ms: recv.physical_ms, logical: recv.logical, actor_id: last.actor_id })
    } else {
        ts_succ(last)
    }
}

impl View for Timestamp {
    type V = Timestamp;

    open spec fn view(&self) -> Timestamp {
        *self
    }
}

/// The timestamp order is total and strict.
pub proof fn lemma_ts_total(a: Timestamp, b: Timestamp)
    ensures
        ts_lt(a, b) || ts_lt(b, a) || a == b,
        !(ts_lt(a, b) && ts_lt(b, a)),
        !(ts_lt(a, b) && a == b),
{
}

impl Timestamp {
    /// The 28-byte wire form: physical_ms, logical and actor_id,
    /// each big-endian.
    pub open spec fn spec_bytes(self) -> Seq<u8> {
        spec_u64_to_be_bytes(self.physical_ms) + spec_u32_to_be_bytes(self.logical)
            + spec_u128_to_be_bytes(self.actor_id)
    }

    /// A timestamp at the current wall clock with logical counter zero.
    pub fn now(actor_id: u128) -> (r: Timestamp)
        ensures
            r.logical == 0,
            r.actor_id == actor_id,
    {
        Timestamp { physical_ms: wall_clock_ms(), logical: 0, actor_id }
    }

    /// Strict comparison in the timestamp total order.
    pub fn before(&self, other: &Timestamp) -> (r: bool)
        ensures
            r == ts_lt(*self, *other),
    {
        if self.physical_ms != other.physical_ms {
            self.physical_ms < other.physical_ms
        } else if self.logical != other.logical {
            self.logical < other.logical
        } else {
            self.actor_id < other.actor_id
        }
    }

    /// Serialize to the 28-byte big-endian wire form.
    pub fn to_bytes(&self) -> (r: Vec<u8>)
        ensures
            r@ == self.spec_bytes(),
            r@.len() == 28,
    {
        proof {
            lemma_be_bytes_properties();
        }
        let mut bytes = u64_to_be_bytes(self.physical_ms);
        let logical = u32_to_be_bytes(self.logical);
        let actor = u128_to_be_bytes(self.actor_id);
        let mut i: usize = 0;
        while i < 4
            invariant
                logical@.len() == 4,
                i <= 4,
                bytes@ == spec_u64_to_be_bytes(self.physical_ms) + logical@.take(i as int),
            decreases 4 - i,
        {
            bytes.push(logical[i]);
            i += 1;
            proof {
                assert(logical@.take(i as int) =~= logical@.take(i - 1).push(logical@[i - 1]));
            }
        }
        let mut j: usize = 0;
        while j < 16
            invariant
                actor@.len() == 16,
                logical@.len() == 4,
                j <= 16,
                bytes@ == spec_u64_to_be_bytes(self.physical_ms) + logical@ + actor@.take(j as int),
            decreases 16 - j,
        {
            bytes.push(actor[j]);
            j += 1;
            proof {
                assert(actor@.take(j as int) =~= actor@.take(j - 1).push(actor@[j - 1]));
            }
        }
        proof {
            assert(logical@.take(4) =~= logical@);
            assert(actor@.take(16) =~= actor@);
            assert(bytes@ =~= self.spec_bytes());
        }
        bytes
    }

    /// Deserialize from the wire form; the input may be longer than 28 bytes
    /// and only its prefix is read.
    pub fn from_bytes(bytes: &[u8]) -> (r: Result<Timestamp, TimestampError>)
        ensures
            bytes@.len() >= 28 ==> (r matches Ok(t) && t.spec_bytes() == bytes@.subrange(0, 28)),
            bytes@.len() < 28 ==> r == Result::<Timestamp, TimestampError>::Err(
                TimestampError::InsufficientBytes { expected: 28, actual: bytes@.len() as usize },
            ),
    {
        if bytes.len() < 28 {
            return Err(TimestampError::InsufficientBytes { expected: 28, actual: bytes.len() });
        }
        let physical_ms = u64_from_be_bytes(&bytes[0..8]);
        let logical = u32_from_be_bytes(&bytes[8..12]);
        let actor_id = u128_from_be_bytes(&bytes[12..28]);
        let t = Timestamp { physical_ms, logical, actor_id };
        proof {
            assert(t.spec_bytes() =~= bytes@.subrange(0, 28));
        }
        Ok(t)
    }
}

/// The timestamp a 28-byte wire form denotes.
pub open spec fn spec_ts_from_bytes(bs: Seq<u8>) -> Timestamp {
    Timestamp {
        physical_ms: crate::bytes_be::spec_u64_from_be_bytes(bs.subrange(0, 8)),
        logical: crate::bytes_be::spec_u32_from_be_bytes(bs.subrange(8, 12)),
        actor_id: crate::bytes_be::spec_u128_from_be_bytes(bs.subrange(12, 28)),
    }
}

/// Reading a wire form back gives the timestamp that produced it.
pub proof fn lemma_ts_from_bytes_roundtrip(t: Timestamp)
    ensures
        spec_ts_from_bytes(t.spec_bytes()) == t,
{
    lemma_be_bytes_properties();
    crate::bytes_be::lemma_u64_be_from_to();
    crate::bytes_be::lemma_u32_u128_be_from_to();
    assert(t.spec_bytes().subrange(0, 8) =~= spec_u64_to_be_bytes(t.physical_ms));
    assert(t.spec_bytes().subrange(8, 12) =~= spec_u32_to_be_bytes(t.logical));
    assert(t.spec_bytes().subrange(12, 28) =~= spec_u128_to_be_bytes(t.actor_id));
}

/// From-bytes is a left inverse of to-bytes, and the wire form determines
/// the timestamp.
pub proof fn lemma_timestamp_bytes_roundtrip()
    ensures
        forall|t: Timestamp| (#[trigger] t.spec_bytes()).len() == 28,
        forall|a: Timestamp, b: Timestamp| a.spec_bytes() == b.spec_bytes() ==> a == b,
{
    lemma_be_bytes_properties();
    assert forall|a: Timestamp, b: Timestamp| a.spec_bytes() == b.spec_bytes() implies a == b by {
        assert(spec_u64_to_be_bytes(a.physical_ms) =~= a.spec_bytes().subrange(0, 8));
        assert(spec_u64_to_be_bytes(b.physical_ms) =~= b.spec_bytes().subrange(0, 8));
        assert(spec_u32_to_be_bytes(a.logical) =~= a.spec_bytes().subrange(8, 12));
        assert(spec_u32_to_be_bytes(b.logical) =~= b.spec_bytes().subrange(8, 12));
        assert(spec_u128_to_be_bytes(a.actor_id) =~= a.spec_bytes().subrange(12, 28));
        assert(spec_u128_to_be_bytes(b.actor_id) =~= b.spec_bytes().subrange(12, 28));
    }
}

/// Errors from timestamp deserialization.
#[derive(Debug, Clone, Copy, PartialEq, Eq, Structural)]
pub enum TimestampError {
    /// The input held fewer bytes than a serialized timestamp needs.
    InsufficientBytes { expected: usize, actual: usize },
}

impl TimestampError {
    /// A human-readable rendering of the error.
    pub fn message(&self) -> String {
        match self {
            TimestampError::InsufficientBytes { .. } => "insufficient bytes".to_owned(),
        }
    }
}

/// The hybrid logical clock state: the greatest timestamp produced or
/// observed so far.
#[derive(Debug, Clone, Copy)]
pub struct Hlc {
    last: Timestamp,
}

impl Hlc {
    /// The clock's current state, for contracts.
    pub closed spec fn spec_last(&self) -> Timestamp {
        self.last
    }

    /// A fresh clock for the given actor, started at the current wall clock.
    pub fn new(actor_id: u128) -> (r: Hlc)
        ensures
            r.spec_last().actor_id == actor_id,
            r.spec_last().logical == 0,
    {
        Hlc { last: Timestamp::now(actor_id) }
    }

    /// The actor this clock stamps for.
    pub fn actor_id(&self) -> (r: u128)
        ensures
            r == self.spec_last().actor_id,
    {
        self.last.actor_id
    }

    /// The current timestamp without advancing the clock.
    pub fn current(&self) -> (r: Timestamp)
        ensures
            r == self.spec_last(),
    {
        self.last
    }

    /// Advance for a local event given a wall reading; the exact transition
    /// of the clock rules.
    pub fn advance(&mut self, now_ms: u64) -> (r: Timestamp)
        ensures
            final(self).spec_last() == tick_post(old(self).spec_last(), now_ms),
            r == final(self).spec_last(),
            r.actor_id == old(self).spec_last().actor_id,
            ts_le(old(self).spec_last(), r),
            !ts_ceiling(old(self).spec_last()) ==> ts_lt(old(self).spec_last(), r),
    {
        if now_ms > self.last.physical_ms {
            self.last.physical_ms = now_ms;
            self.last.logical = 0;
        } else if self.last.logical < u32::MAX {
            self.last.logical = self.last.logical + 1;
        } else if self.last.physical_ms < u64::MAX {
            self.last.physical_ms = self.last.physical_ms + 1;
            self.last.logical = 0;
        }
        self.last
    }

    /// Generate a timestamp for a local event. The result is strictly
    /// greater than every timestamp this clock has produced or observed,
    /// whatever the wall clock reads, as long as the clock has not reached
    /// the representation ceiling.
    pub fn tick(&mut self) -> (r: Timestamp)
        ensures
            r == final(self).spec_last(),
            r.actor_id == old(self).spec_last().actor_id,
            ts_le(old(self).spec_last(), r),
            !ts_ceiling(old(self).spec_last()) ==> ts_lt(old(self).spec_last(), r),
    {
        let now_ms = wall_clock_ms();
        self.advance(now_ms)
    }

    /// Merge a remote timestamp given a wall reading; the exact transition
    /// of the clock rules.
    pub fn update_at(&mut self, recv: Timestamp, now_ms: u64)
        ensures
            final(self).spec_last() == update_post(old(self).spec_last(), recv, now_ms),
            final(self).spec_last().actor_id == old(self).spec_last().actor_id,
            ts_le(old(self).spec_last(), final(self).spec_last()),
            !ts_ceiling(old(self).spec_last()) ==> ts_lt(old(self).spec_last(), final(self).spec_last()),
            !ts_ceiling(recv) ==> ts_lt(recv, final(self).spec_last()),
            ts_ceiling(recv) ==> ts_ceiling(final(self).spec_last()),
    {
        if now_ms > self.last.physical_ms && now_ms > recv.physical_ms {
            self.last.physical_ms = now_ms;
            self.last.logical = 0;
        } else if self.last.physical_ms == recv.physical_ms {
            let l = if self.last.logical >= recv.logical { self.last.logical } else { recv.logical };
            self.bump_from(self.last.physical_ms, l);
        } else if recv.physical_ms > self.last.physical_ms {
            self.bump_from(recv.physical_ms, recv.logical);
        } else {
            self.bump_from(self.last.physical_ms, self.last.logical);
        }
    }

    /// Observe a remote timestamp so that the clock moves past it. The new
    /// state is strictly greater than both the old state and the received
    /// timestamp, short of the representation ceiling.
    pub fn update(&mut self, recv: Timestamp)
        ensures
            final(self).spec_last().actor_id == old(self).spec_last().actor_id,
            ts_le(old(self).spec_last(), final(self).spec_last()),
            !ts_ceiling(old(self).spec_last()) ==> ts_lt(old(self).spec_last(), final(self).spec_last()),
            !ts_ceiling(recv) ==> ts_lt(recv, final(self).spec_last()),
            ts_ceiling(recv) ==> ts_ceiling(final(self).spec_last()),
    {
        let now_ms = wall_clock_ms();
        self.update_at(recv, now_ms);
    }

    /// Set the state to the successor of (physical_ms, logical), saturating
    /// at the ceiling.
    fn bump_from(&mut self, physical_ms: u64, logical: u32)
        ensures
            final(self).spec_last() == ts_succ(Timestamp {
                physical_ms,
                logical,
                actor_id: old(self).spec_last().actor_id,
            }),
    {
        if logical < u32::MAX {
            self.last.physical_ms = physical_ms;
            self.last.logical = logical + 1;
        } else if physical_ms < u64::MAX {
            self.last.physical_ms = physical_ms + 1;
            self.last.logical = 0;
        } else {
            self.last.physical_ms = physical_ms;
            self.last.logical = logical;
        }
    }
}

/// One clock input: a local event at some wall reading, or a remote
/// timestamp observed at some wall reading.
pub enum ClockEvent {
    Local(u64),
    Remote(Timestamp, u64),
}

/// The clock state transition for one input.
pub open spec fn clock_step(last: Timestamp, e: ClockEvent) -> Timestamp {
    match e {
        ClockEvent::Local(now_ms) => tick_post(last, now_ms),
        ClockEvent::Remote(recv, now_ms) => update_post(last, recv, now_ms),
    }
}

/// The clock state after a sequence of inputs.
pub open spec fn clock_run(t0: Timestamp, es: Seq<ClockEvent>) -> Timestamp
    decreases es.len(),
{
    if es.len() == 0 {
        t0
    } else {
        clock_step(clock_run(t0, es.drop_last()), es.last())
    }
}

/// One step strictly increases the clock state, short of the ceiling.
pub proof fn lemma_clock_step_strict(last: Timestamp, e: ClockEvent)
    requires
        !ts_ceiling(last),
    ensures
        ts_lt(last, clock_step(last, e)),
        clock_step(last, e).actor_id == last.actor_id,
{
}

/// The law of clock monotonicity: over any sequence of local ticks and
/// remote updates, the clock states after each call are strictly increasing
/// in the timestamp total order, as long as no intermediate state has
/// reached the representation ceiling. Since each call returns its new
/// state, the outputs of such a call sequence are strictly increasing.
pub proof fn lemma_clock_run_monotonic(t0: Timestamp, es: Seq<ClockEvent>, i: int, j: int)
    requires
        0 <= i < j <= es.len(),
        forall|k: int| 0 <= k < es.len() ==> !ts_ceiling(#[trigger] clock_run(t0, es.take(k))),
    ensures
        ts_lt(clock_run(t0, es.take(i)), clock_run(t0, es.take(j))),
    decreases j,
{
    let prev = clock_run(t0, es.take(j - 1));
    assert(es.take(j).drop_last() =~= es.take(j - 1));
    assert(es.take(j).last() == es[j - 1]);
    assert(clock_run(t0, es.take(j)) == clock_step(prev, es[j - 1]));
    lemma_clock_step_strict(prev, es[j - 1]);
    if i < j - 1 {
        lemma_clock_run_monotonic(t0, es, i, j - 1);
    }
}

/// Relies on std::time::SystemTime for the wall-clock reading; nothing is
/// assumed of the value, so every caller is verified for every reading.
#[verifier::external_body]
fn wall_clock_ms() -> u64 {
    match std::time::SystemTime::now().duration_since(std::time::UNIX_EPOCH) {
        Ok(d) => u64::try_from(d.as_millis()).unwrap_or(u64::MAX),
        Err(_) => 0,
    }
}

} // verus!
