//! The upstream request gate: bounded concurrency with a coarse circuit
//! breaker.
//!
//! A fixed number of permits bounds concurrent upstream requests. When
//! the upstream answers with status 502, every new request waits out a
//! five-second pause; requests already in flight finish undisturbed, and
//! normal concurrency resumes once the pause has passed.

use vstd::prelude::*;

verus! {

/// How long a status of 502 pauses new requests, in microseconds.
pub const BREAKER_PAUSE_MICROS: i64 = 5_000_000;

/// Counts requests in flight against the capacity and remembers the end
/// of a pending pause, if the upstream demanded one.
pub struct RequestGate {
    pub capacity: u32,
    pub in_flight: u32,
    pub blocked_until: Option<i64>,
}

/// Is a pause pending that has not yet passed at `now`?
pub open spec fn breaker_active(g: RequestGate, now: i64) -> bool {
    g.blocked_until matches Some(t) && now < t
}

impl RequestGate {
    /// A fresh gate with every permit free and no block pending.
    pub fn new(capacity: u32) -> (r: RequestGate)
        ensures
            r.capacity == capacity,
            r.in_flight == 0,
            r.blocked_until is None,
    {
        RequestGate { capacity, in_flight: 0, blocked_until: None }
    }

    /// Try to start a request at instant `now`. Granted exactly when a
    /// permit is free and the breaker is not active.
    pub fn try_acquire(&mut self, now: i64) -> (granted: bool)
        ensures
            granted <==> (old(self).in_flight < old(self).capacity && !breaker_active(
                *old(self),
                now,
            )),
            granted ==> *final(self) == (RequestGate {
                in_flight: (old(self).in_flight + 1) as u32,
                ..*old(self)
            }),
            !granted ==> *final(self) == *old(self),
    {
        let blocked = match self.blocked_until {
            Some(t) => now < t,
            None => false,
        };
        if self.in_flight < self.capacity && !blocked {
            self.in_flight = self.in_flight + 1;
            true
        } else {
            false
        }
    }

    /// A request finished: its permit returns.
    pub fn release(&mut self)
        requires
            old(self).in_flight > 0,
        ensures
            *final(self) == (RequestGate {
                in_flight: (old(self).in_flight - 1) as u32,
                ..*old(self)
            }),
    {
        self.in_flight = self.in_flight - 1;
    }

    /// A response arrived with this status at instant `now`. A 502 arms
    /// the breaker for five seconds; every other status changes nothing.
    pub fn on_status(&mut self, status: u16, now: i64)
        requires
            now + BREAKER_PAUSE_MICROS <= i64::MAX,
        ensures
            status == 502 ==> *final(self) == (RequestGate {
                blocked_until: Some((now + BREAKER_PAUSE_MICROS) as i64),
                ..*old(self)
            }),
            status != 502 ==> *final(self) == *old(self),
    {
        if status == 502 {
            self.blocked_until = Some(now + BREAKER_PAUSE_MICROS);
        }
    }
}

/// Circuit-breaker fairness: after the upstream answers 502 at `t0`,
/// nothing at all is granted during the pause, and afterwards grants
/// resume exactly as they would on a gate with no pause pending.
pub proof fn lemma_circuit_breaker_fairness(g: RequestGate, t0: i64, now: i64)
    requires
        t0 + BREAKER_PAUSE_MICROS <= i64::MAX,
        g.blocked_until == Some((t0 + BREAKER_PAUSE_MICROS) as i64),
    ensures
        now < t0 + BREAKER_PAUSE_MICROS ==> breaker_active(g, now) && !(g.in_flight < g.capacity
            && !breaker_active(g, now)),
        now >= t0 + BREAKER_PAUSE_MICROS ==> !breaker_active(g, now) && ((g.in_flight < g.capacity
            && !breaker_active(g, now)) <==> g.in_flight < g.capacity),
{
}

/// How a completed upstream response is treated on the opportunistic
/// fetch path.
#[derive(Clone, Copy, Debug, PartialEq, Eq, Structural)]
pub enum FetchOutcome {
    /// A body worth archiving.
    Success,
    /// HTTP 404: the entity is absent; not an error for callers that opt
    /// into trying.
    Absent,
    /// Any other client or server error status.
    Failed,
}

/// Classify a response status: 404 means absent rather than failed, any
/// other error status fails the fetch, everything below 400 succeeds.
pub fn classify_status(status: u16) -> (r: FetchOutcome)
    ensures
        r == FetchOutcome::Absent <==> status == 404,
        r == FetchOutcome::Failed <==> (status >= 400 && status != 404),
        r == FetchOutcome::Success <==> status < 400,
{
    if status == 404 {
        FetchOutcome::Absent
    } else if status >= 400 {
        FetchOutcome::Failed
    } else {
        FetchOutcome::Success
    }
}

/// What one upstream fetch produced: the instants around the request and
/// the raw body. The instant before the request is the authoritative
/// observation timestamp.
pub struct ClientResponse {
    pub timestamp_before: i64,
    pub timestamp_after: i64,
    pub status: u16,
    pub data: Vec<u8>,
}

impl ClientResponse {
    /// How long the upstream took, in microseconds.
    pub fn request_time(&self) -> (r: i64)
        requires
            self.timestamp_before <= self.timestamp_after,
            self.timestamp_after - self.timestamp_before <= i64::MAX,
        ensures
            r == self.timestamp_after - self.timestamp_before,
    {
        self.timestamp_after - self.timestamp_before
    }

    /// The observation timestamp: the instant polling began.
    pub fn timestamp(&self) -> (r: i64)
        ensures
            r == self.timestamp_before,
    {
        self.timestamp_before
    }
}

} // verus!
