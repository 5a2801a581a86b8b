//! The stale-while-revalidate cache, as a per-key slot state machine.
//!
//! A slot is Uninitialized, Loading, Fresh or Stale. Reads never block
//! when a value exists; an expired value is served while exactly one
//! background revalidation is in flight; a failed load keeps the last
//! good value. The executor around the cache performs the loads; the
//! decisions live here.

use vstd::prelude::*;

verus! {

/// One cache slot. `value` carries the last good value with its expiry
/// instant; `loading` says whether a load for this key is in flight.
/// Uninitialized is `(None, false)`, Loading `(None, true)`, Fresh/Stale
/// `(Some, _)` depending on the clock and the flag.
pub struct SwrSlot<V> {
    pub value: Option<(V, i64)>,
    pub loading: bool,
}

/// What a read tells its caller to do.
#[derive(Clone, Copy, Debug, PartialEq, Eq, Structural)]
pub enum GetAction {
    /// No value yet and no load running: this caller starts the load and
    /// awaits it.
    StartLoad,
    /// No value yet, a load is already running: await that same load.
    AwaitLoad,
    /// The value is fresh: return it at once.
    ReturnFresh,
    /// The value has expired and no revalidation runs: return the stale
    /// value at once and start one background revalidation.
    ReturnAndRevalidate,
    /// The value has expired and a revalidation already runs: return the
    /// stale value and start nothing.
    ReturnStale,
}

/// The slot after a read at instant `now`.
pub open spec fn get_transition<V>(s: SwrSlot<V>, now: i64) -> SwrSlot<V> {
    match s.value {
        None => SwrSlot { value: s.value, loading: true },
        Some((v, e)) => if now <= e {
            s
        } else {
            SwrSlot { value: s.value, loading: true }
        },
    }
}

/// What a read at instant `now` answers.
pub open spec fn get_action<V>(s: SwrSlot<V>, now: i64) -> GetAction {
    match s.value {
        None => if s.loading {
            GetAction::AwaitLoad
        } else {
            GetAction::StartLoad
        },
        Some((v, e)) => if now <= e {
            GetAction::ReturnFresh
        } else if s.loading {
            GetAction::ReturnStale
        } else {
            GetAction::ReturnAndRevalidate
        },
    }
}

/// A read starts a load only in these two cases.
pub open spec fn starts_load<V>(s: SwrSlot<V>, now: i64) -> bool {
    get_action(s, now) == GetAction::StartLoad || get_action(s, now)
        == GetAction::ReturnAndRevalidate
}

impl<V> SwrSlot<V> {
    /// A key that has never been asked for.
    pub fn new() -> (r: SwrSlot<V>)
        ensures
            r.value is None,
            !r.loading,
    {
        SwrSlot { value: None, loading: false }
    }

    /// The slot holds a last good value, fresh or stale.
    pub open spec fn has_value(self) -> bool {
        self.value is Some
    }

    /// One read at instant `now`: answer per state, and mark a load in
    /// flight exactly when one is started.
    pub fn on_get(&mut self, now: i64) -> (a: GetAction)
        ensures
            a == get_action(*old(self), now),
            *final(self) == get_transition(*old(self), now),
            final(self).value == old(self).value,
            starts_load(*old(self), now) ==> !old(self).loading && final(self).loading,
            !starts_load(*old(self), now) ==> *final(self) == *old(self),
    {
        match &self.value {
            None => {
                if self.loading {
                    GetAction::AwaitLoad
                } else {
                    self.loading = true;
                    GetAction::StartLoad
                }
            },
            Some((_, e)) => {
                let expires = *e;
                if now <= expires {
                    GetAction::ReturnFresh
                } else if self.loading {
                    GetAction::ReturnStale
                } else {
                    self.loading = true;
                    GetAction::ReturnAndRevalidate
                }
            },
        }
    }

    /// A load came back with a value: it becomes the fresh value, good
    /// until `now + ttl`, and no load is in flight any more.
    pub fn on_load_success(&mut self, v: V, now: i64, ttl: i64)
        requires
            0 <= ttl,
            now + ttl <= i64::MAX,
        ensures
            final(self).value == Some((v, (now + ttl) as i64)),
            final(self).has_value(),
            !final(self).loading,
    {
        self.value = Some((v, now + ttl));
        self.loading = false;
    }

    /// A load failed: the last good value, if any, is kept, and the next
    /// read may start a new load.
    pub fn on_load_failure(&mut self)
        ensures
            final(self).value == old(self).value,
            !final(self).loading,
    {
        self.loading = false;
    }
}

/// The slot after a run of reads at the given instants, with no load
/// completing in between.
pub open spec fn run_gets<V>(s: SwrSlot<V>, nows: Seq<i64>) -> SwrSlot<V>
    decreases nows.len(),
{
    if nows.len() == 0 {
        s
    } else {
        run_gets(get_transition(s, nows[0]), nows.drop_first())
    }
}

/// How many of those reads started a load.
pub open spec fn loads_started<V>(s: SwrSlot<V>, nows: Seq<i64>) -> nat
    decreases nows.len(),
{
    if nows.len() == 0 {
        0
    } else {
        (if starts_load(s, nows[0]) {
            1nat
        } else {
            0nat
        }) + loads_started(get_transition(s, nows[0]), nows.drop_first())
    }
}

/// Single flight: however many concurrent reads arrive between two load
/// completions, at most one of them starts a load — and none at all while
/// a load is already in flight.
pub proof fn lemma_swr_single_flight<V>(s: SwrSlot<V>, nows: Seq<i64>)
    ensures
        loads_started(s, nows) <= 1,
        s.loading ==> loads_started(s, nows) == 0,
    decreases nows.len(),
{
    if nows.len() > 0 {
        lemma_swr_single_flight(get_transition(s, nows[0]), nows.drop_first());
    }
}

/// Availability: once a value is cached, every later read returns a value
/// immediately, whatever interleaving of reads and failed loads follows.
pub proof fn lemma_swr_availability<V>(s: SwrSlot<V>, now: i64)
    requires
        s.has_value(),
    ensures
        get_transition(s, now).has_value(),
        get_action(s, now) == GetAction::ReturnFresh || get_action(s, now)
            == GetAction::ReturnStale || get_action(s, now) == GetAction::ReturnAndRevalidate,
{
}

/// Availability over a whole run of reads: the value survives and every
/// read in the run returns it.
pub proof fn lemma_swr_availability_run<V>(s: SwrSlot<V>, nows: Seq<i64>)
    requires
        s.has_value(),
    ensures
        run_gets(s, nows).has_value(),
        forall|k: int| 0 <= k < nows.len() ==> get_action(
            run_gets(s, nows.take(k)),
            #[trigger] nows[k],
        ) != GetAction::StartLoad && get_action(run_gets(s, nows.take(k)), nows[k])
            != GetAction::AwaitLoad,
    decreases nows.len(),
{
    if nows.len() > 0 {
        let s1 = get_transition(s, nows[0]);
        lemma_swr_availability_run(s1, nows.drop_first());
        assert(nows.take(0) =~= Seq::<i64>::empty());
        assert forall|k: int| 0 <= k < nows.len() implies get_action(
            run_gets(s, nows.take(k)),
            #[trigger] nows[k],
        ) != GetAction::StartLoad && get_action(run_gets(s, nows.take(k)), nows[k])
            != GetAction::AwaitLoad by {
            if k > 0 {
                let d = nows.drop_first();
                assert(d.take(k - 1) =~= nows.take(k).drop_first());
                assert(run_gets(s, nows.take(k)) == run_gets(s1, d.take(k - 1))) by {
                    assert(nows.take(k)[0] == nows[0]);
                }
                assert(d[k - 1] == nows[k]);
            }
        }
    }
}

} // verus!
