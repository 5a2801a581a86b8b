//! The version builder: folds ordered observations into version intervals,
//! collapsing runs of equal adjacent hashes.
//!
//! Two modes build the same timeline. The incremental hot path extends an
//! existing timeline by one observation; the rebuild cold path derives the
//! whole timeline from the observation log. Their equivalence is proved
//! here, together with the shape invariants of a rebuilt timeline.

use vstd::prelude::*;

verus! {

/// One version: a content hash valid over the half-open interval
/// `[valid_from, valid_to)` of observation time, in microseconds. An open
/// version, with no `valid_to`, is the current one.
#[derive(Clone, Copy, Debug)]
pub struct Version {
    pub valid_from: i64,
    pub valid_to: Option<i64>,
    pub hash: u128,
}

impl Version {
    /// An open version has no end instant.
    pub fn is_open(&self) -> (r: bool)
        ensures
            r == (self.valid_to is None),
    {
        self.valid_to.is_none()
    }
}

/// How one observation `(ts, hash)` extends a timeline: a repeated hash is
/// absorbed into the open version, a new hash closes it at `ts` and opens
/// a new version.
pub open spec fn step(t: Seq<Version>, ts: i64, hash: u128) -> Seq<Version> {
    if t.len() > 0 && t.last().hash == hash {
        t
    } else if t.len() == 0 {
        seq![Version { valid_from: ts, valid_to: None, hash }]
    } else {
        t.update(
            t.len() - 1,
            Version { valid_from: t.last().valid_from, valid_to: Some(ts), hash: t.last().hash },
        ).push(Version { valid_from: ts, valid_to: None, hash })
    }
}

/// The timeline built by applying every observation in turn: the
/// incremental mode's result.
pub open spec fn incremental_timeline(obs: Seq<(i64, u128)>) -> Seq<Version>
    decreases obs.len(),
{
    if obs.len() == 0 {
        Seq::empty()
    } else {
        step(incremental_timeline(obs.drop_last()), obs.last().0, obs.last().1)
    }
}

/// Length of the initial run of observations sharing the first hash.
pub open spec fn run_len(obs: Seq<(i64, u128)>) -> int
    decreases obs.len(),
{
    if obs.len() <= 1 {
        obs.len() as int
    } else if obs[1].1 == obs[0].1 {
        1 + run_len(obs.drop_first())
    } else {
        1
    }
}

/// The timeline as the rebuild mode derives it: one version per maximal
/// run of equal adjacent hashes, each closed at the first instant of the
/// next run, the last left open.
pub open spec fn rebuild_timeline(obs: Seq<(i64, u128)>) -> Seq<Version>
    decreases obs.len(),
    via rebuild_timeline_decreases
{
    if obs.len() == 0 {
        Seq::empty()
    } else {
        let run = run_len(obs);
        let first = Version {
            valid_from: obs[0].0,
            valid_to: if run < obs.len() {
                Some(obs[run].0)
            } else {
                None
            },
            hash: obs[0].1,
        };
        seq![first] + rebuild_timeline(obs.skip(run))
    }
}

#[via_fn]
proof fn rebuild_timeline_decreases(obs: Seq<(i64, u128)>) {
    if obs.len() > 0 {
        lemma_run_len_bounds(obs);
    }
}

proof fn lemma_run_len_bounds(obs: Seq<(i64, u128)>)
    requires
        obs.len() > 0,
    ensures
        1 <= run_len(obs) <= obs.len(),
        forall|i: int| 0 <= i < run_len(obs) ==> (#[trigger] obs[i]).1 == obs[0].1,
        run_len(obs) < obs.len() ==> obs[run_len(obs)].1 != obs[0].1,
    decreases obs.len(),
{
    if obs.len() > 1 && obs[1].1 == obs[0].1 {
        lemma_run_len_bounds(obs.drop_first());
        let d = obs.drop_first();
        assert(forall|i: int| 0 <= i < d.len() ==> #[trigger] d[i] == obs[i + 1]);
        assert forall|i: int| 0 <= i < run_len(obs) implies (#[trigger] obs[i]).1 == obs[0].1 by {
            if i > 0 {
                assert(d[i - 1].1 == d[0].1);
            }
        }
        if run_len(obs) < obs.len() {
            assert(obs[run_len(obs)] == d[run_len(obs) - 1]);
        }
    }
}

/// How `run_len` reacts to one more observation at the end.
proof fn lemma_run_len_push(obs: Seq<(i64, u128)>, x: (i64, u128))
    requires
        obs.len() > 0,
    ensures
        run_len(obs) < obs.len() ==> run_len(obs.push(x)) == run_len(obs),
        run_len(obs) == obs.len() && x.1 == obs[0].1 ==> run_len(obs.push(x)) == obs.len() + 1,
        run_len(obs) == obs.len() && x.1 != obs[0].1 ==> run_len(obs.push(x)) == obs.len(),
    decreases obs.len(),
{
    lemma_run_len_bounds(obs);
    let p = obs.push(x);
    if obs.len() == 1 {
        assert(p[1] == x);
        assert(p.drop_first() =~= seq![x]);
        assert(run_len(seq![x]) == 1);
    } else {
        assert(p[0] == obs[0]);
        assert(p[1] == obs[1]);
        if obs[1].1 == obs[0].1 {
            assert(p.drop_first() =~= obs.drop_first().push(x));
            lemma_run_len_push(obs.drop_first(), x);
            lemma_run_len_bounds(obs.drop_first());
        }
    }
}

/// `rebuild_timeline` is empty only for an empty log.
proof fn lemma_rebuild_nonempty(obs: Seq<(i64, u128)>)
    ensures
        rebuild_timeline(obs).len() > 0 <==> obs.len() > 0,
{
    if obs.len() > 0 {
        assert(rebuild_timeline(obs).len() >= 1);
    }
}

/// `step` touches only the end of a timeline, so a fixed prefix passes
/// through it.
proof fn lemma_step_concat(s: Seq<Version>, t: Seq<Version>, ts: i64, hash: u128)
    requires
        t.len() > 0,
    ensures
        step(s + t, ts, hash) == s + step(t, ts, hash),
{
    let c = s + t;
    assert(c.last() == t.last());
    if c.len() > 0 && c.last().hash == hash {
        assert(step(s + t, ts, hash) =~= s + step(t, ts, hash));
    } else {
        assert(c.update(
            c.len() - 1,
            Version {
                valid_from: c.last().valid_from,
                valid_to: Some(ts),
                hash: c.last().hash,
            },
        ) =~= s + t.update(
            t.len() - 1,
            Version {
                valid_from: t.last().valid_from,
                valid_to: Some(ts),
                hash: t.last().hash,
            },
        ));
        assert(step(s + t, ts, hash) =~= s + step(t, ts, hash));
    }
}

/// One more observation extends the rebuilt timeline exactly as the
/// incremental step does.
proof fn lemma_rebuild_push(obs: Seq<(i64, u128)>, x: (i64, u128))
    ensures
        rebuild_timeline(obs.push(x)) == step(rebuild_timeline(obs), x.0, x.1),
    decreases obs.len(),
{
    let p = obs.push(x);
    if obs.len() == 0 {
        reveal_with_fuel(rebuild_timeline, 3);
        assert(p.len() == 1);
        assert(p[0] == x);
        assert(run_len(p) == 1);
        assert(p.skip(1) =~= Seq::<(i64, u128)>::empty());
        assert(rebuild_timeline(p) =~= step(rebuild_timeline(obs), x.0, x.1));
    } else {
        lemma_run_len_bounds(obs);
        lemma_run_len_push(obs, x);
        let run = run_len(obs);
        assert(p[0] == obs[0]);
        if run < obs.len() {
            assert(run_len(p) == run);
            assert(p[run] == obs[run]);
            assert(p.skip(run) =~= obs.skip(run).push(x));
            lemma_rebuild_push(obs.skip(run), x);
            lemma_rebuild_nonempty(obs.skip(run));
            lemma_step_concat(
                seq![
                    Version {
                        valid_from: obs[0].0,
                        valid_to: Some(obs[run].0),
                        hash: obs[0].1,
                    },
                ],
                rebuild_timeline(obs.skip(run)),
                x.0,
                x.1,
            );
            assert(rebuild_timeline(p) == step(rebuild_timeline(obs), x.0, x.1));
        } else {
            assert(run == obs.len());
            assert(obs.skip(run) =~= Seq::<(i64, u128)>::empty());
            assert(rebuild_timeline(obs) =~= seq![
                Version { valid_from: obs[0].0, valid_to: None, hash: obs[0].1 },
            ]);
            if x.1 == obs[0].1 {
                assert(run_len(p) == obs.len() + 1);
                assert(p.skip(obs.len() as int + 1) =~= Seq::<(i64, u128)>::empty());
                assert(rebuild_timeline(p) =~= seq![
                    Version { valid_from: obs[0].0, valid_to: None, hash: obs[0].1 },
                ]);
                assert(rebuild_timeline(p) == step(rebuild_timeline(obs), x.0, x.1));
            } else {
                reveal_with_fuel(rebuild_timeline, 3);
                assert(run_len(p) == obs.len());
                assert(p[obs.len() as int] == x);
                assert(p.skip(obs.len() as int) =~= seq![x]);
                assert(run_len(seq![x]) == 1);
                assert(seq![x].skip(1) =~= Seq::<(i64, u128)>::empty());
                assert(rebuild_timeline(p.skip(obs.len() as int)) =~= seq![
                    Version { valid_from: x.0, valid_to: None, hash: x.1 },
                ]);
                assert(rebuild_timeline(p) =~= seq![
                    Version { valid_from: obs[0].0, valid_to: Some(x.0), hash: obs[0].1 },
                    Version { valid_from: x.0, valid_to: None, hash: x.1 },
                ]);
                assert(step(rebuild_timeline(obs), x.0, x.1) =~= seq![
                    Version { valid_from: obs[0].0, valid_to: Some(x.0), hash: obs[0].1 },
                    Version { valid_from: x.0, valid_to: None, hash: x.1 },
                ]);
            }
        }
    }
}

/// Incremental equals rebuild: applying observations one at a time builds
/// exactly the timeline a full rebuild derives from the log.
pub proof fn lemma_incremental_equals_rebuild(obs: Seq<(i64, u128)>)
    ensures
        incremental_timeline(obs) == rebuild_timeline(obs),
    decreases obs.len(),
{
    if obs.len() > 0 {
        let d = obs.drop_last();
        lemma_incremental_equals_rebuild(d);
        lemma_rebuild_push(d, obs.last());
        assert(d.push(obs.last()) =~= obs);
    }
}

/// Timestamps strictly increase along the observation log.
pub open spec fn strictly_increasing(obs: Seq<(i64, u128)>) -> bool {
    forall|i: int, j: int| 0 <= i < j < obs.len() ==> obs[i].0 < obs[j].0
}

/// The shape of a correct timeline: starts strictly ordered, every version
/// closed exactly at its successor's start, consecutive hashes distinct,
/// and exactly the last version open.
pub open spec fn timeline_wf(t: Seq<Version>) -> bool {
    &&& forall|i: int, j: int| 0 <= i < j < t.len() ==> t[i].valid_from < t[j].valid_from
    &&& forall|i: int| 0 <= i < t.len() - 1 ==> (#[trigger] t[i].valid_to) == Some(
        t[i + 1].valid_from,
    )
    &&& forall|i: int| 0 <= i < t.len() - 1 ==> (#[trigger] t[i].hash) != t[i + 1].hash
    &&& t.len() > 0 ==> t.last().valid_to is None
}

proof fn lemma_incremental_wf(obs: Seq<(i64, u128)>)
    requires
        strictly_increasing(obs),
    ensures
        timeline_wf(incremental_timeline(obs)),
        incremental_timeline(obs).len() > 0 <==> obs.len() > 0,
        obs.len() > 0 ==> incremental_timeline(obs).last().valid_from <= obs.last().0,
        forall|k: int| 0 <= k < incremental_timeline(obs).len() ==> obs.len() > 0
            && (#[trigger] incremental_timeline(obs)[k]).valid_from <= obs.last().0,
    decreases obs.len(),
{
    if obs.len() > 0 {
        let d = obs.drop_last();
        assert(strictly_increasing(d)) by {
            assert(forall|i: int| 0 <= i < d.len() ==> #[trigger] d[i] == obs[i]);
        }
        lemma_incremental_wf(d);
        let t = incremental_timeline(d);
        let ts = obs.last().0;
        let h = obs.last().1;
        let r = incremental_timeline(obs);
        assert(r == step(t, ts, h));
        assert(forall|i: int| 0 <= i < d.len() ==> #[trigger] d[i] == obs[i]);
        if d.len() > 0 {
            assert(d.last() == obs[obs.len() - 2]);
            assert(d.last().0 < ts);
        }
        if t.len() > 0 && t.last().hash == h {
        } else if t.len() == 0 {
        } else {
            let closed = Version {
                valid_from: t.last().valid_from,
                valid_to: Some(ts),
                hash: t.last().hash,
            };
            let opened = Version { valid_from: ts, valid_to: None, hash: h };
            assert(r == t.update(t.len() - 1, closed).push(opened));
            assert(r.len() == t.len() + 1);
            assert(forall|k: int| 0 <= k < t.len() - 1 ==> r[k] == t[k]);
            assert(r[t.len() - 1] == closed);
            assert(r[t.len() as int] == opened);
            assert forall|i: int, j: int| 0 <= i < j < r.len() implies r[i].valid_from
                < r[j].valid_from by {
                if j < t.len() {
                    assert(r[i].valid_from == t[i].valid_from);
                    assert(r[j].valid_from == t[j].valid_from);
                } else {
                    assert(r[j] == opened);
                    assert(r[i].valid_from == t[i].valid_from);
                    assert(t[i].valid_from <= d.last().0);
                }
            }
        }
    }
}

/// Version reconstruction: rebuilding from a strictly increasing
/// observation log yields a well-formed timeline.
pub proof fn lemma_version_reconstruction(obs: Seq<(i64, u128)>)
    requires
        strictly_increasing(obs),
    ensures
        timeline_wf(rebuild_timeline(obs)),
        rebuild_timeline(obs).len() > 0 <==> obs.len() > 0,
{
    lemma_incremental_equals_rebuild(obs);
    lemma_incremental_wf(obs);
}

/// Extend a timeline by one observation: the incremental hot path. A
/// repeated hash is a no-op; a new hash closes the open version at `ts`
/// and opens a new one.
pub fn add_version(timeline: &mut Vec<Version>, ts: i64, hash: u128)
    ensures
        final(timeline)@ == step(old(timeline)@, ts, hash),
{
    let n = timeline.len();
    if n > 0 {
        let last = timeline[n - 1];
        if last.hash == hash {
            return ;
        }
        let closed = Version { valid_from: last.valid_from, valid_to: Some(ts), hash: last.hash };
        timeline.set(n - 1, closed);
        timeline.push(Version { valid_from: ts, valid_to: None, hash });
        proof {
            assert(final(timeline)@ =~= step(old(timeline)@, ts, hash));
        }
    } else {
        timeline.push(Version { valid_from: ts, valid_to: None, hash });
        proof {
            assert(final(timeline)@ =~= step(old(timeline)@, ts, hash));
        }
    }
}

/// Derive the whole timeline for one entity from its observation log,
/// ordered by timestamp: the rebuild cold path.
pub fn rebuild_entity(obs: &Vec<(i64, u128)>) -> (r: Vec<Version>)
    ensures
        r@ == rebuild_timeline(obs@),
        r@ == incremental_timeline(obs@),
{
    let mut out: Vec<Version> = Vec::new();
    let mut i: usize = 0;
    while i < obs.len()
        invariant
            i <= obs@.len(),
            out@ == incremental_timeline(obs@.take(i as int)),
        decreases obs@.len() - i,
    {
        let (ts, h) = obs[i];
        add_version(&mut out, ts, h);
        proof {
            let p = obs@.take(i + 1);
            assert(p.drop_last() =~= obs@.take(i as int));
            assert(p.last() == obs@[i as int]);
        }
        i = i + 1;
    }
    proof {
        assert(obs@.take(obs@.len() as int) =~= obs@);
        lemma_incremental_equals_rebuild(obs@);
    }
    out
}

} // verus!
