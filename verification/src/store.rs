//! The store: content-addressed immutable objects and the append-only
//! observation log. Observations are the source of truth; version
//! timelines are derived from them on demand, so they can always be
//! rebuilt from scratch.

use crate::hashing::{json_hash, sip_hash_of};
use crate::json::{is_canon, ser_spec, similar, wf, JsonValue};
use crate::versions::{rebuild_entity, rebuild_timeline, Version};
use vstd::prelude::*;

verus! {

/// One raw poll record: one upstream fetch of one entity at one instant.
/// `timestamp` is the instant polling began; `request_time` is how long
/// the upstream took, both in microseconds.
pub struct Observation {
    pub kind: u16,
    pub entity_id: String,
    pub timestamp: i64,
    pub request_time: i64,
    pub hash: u128,
}

/// A freshly fetched document on its way into the store.
pub struct NewObject {
    pub kind: u16,
    pub entity_id: String,
    pub data: JsonValue,
    pub timestamp: i64,
    pub request_time: i64,
}

/// Some object row carries this hash.
pub open spec fn has_hash(objs: Seq<(u128, Seq<u8>)>, h: u128) -> bool {
    exists|i: int| 0 <= i < objs.len() && (#[trigger] objs[i]).0 == h
}

/// Some object row holds exactly this hash and payload.
pub open spec fn has_payload(objs: Seq<(u128, Seq<u8>)>, h: u128, payload: Seq<u8>) -> bool {
    exists|i: int| 0 <= i < objs.len() && #[trigger] objs[i] == (h, payload)
}

/// The `(timestamp, hash)` pairs of one entity's observations, in log
/// order.
pub open spec fn obs_proj(log: Seq<Observation>, kind: u16, id: Seq<char>) -> Seq<(i64, u128)>
    decreases log.len(),
{
    if log.len() == 0 {
        Seq::empty()
    } else {
        obs_proj(log.drop_last(), kind, id) + (if log.last().kind == kind && log.last().entity_id@
            == id {
            seq![(log.last().timestamp, log.last().hash)]
        } else {
            Seq::empty()
        })
    }
}

/// No two object rows share a hash: writes are deduplicated on the hash.
pub open spec fn hashes_unique(objs: Seq<(u128, Seq<u8>)>) -> bool {
    forall|i: int, j: int|
        0 <= i < j < objs.len() ==> (#[trigger] objs[i]).0 != (#[trigger] objs[j]).0
}

/// The store: hash-addressed payload rows, written once, and the
/// append-only log.
pub struct Chronicle {
    objects: Vec<(u128, Vec<u8>)>,
    observations: Vec<Observation>,
}

impl Chronicle {
    /// The object table as hash/payload pairs.
    pub closed spec fn objects_view(self) -> Seq<(u128, Seq<u8>)> {
        self.objects@.map_values(|p: (u128, Vec<u8>)| (p.0, p.1@))
    }

    /// The observation log.
    pub closed spec fn log_view(self) -> Seq<Observation> {
        self.observations@
    }

    /// The store's standing shape: every hash addresses at most one row.
    /// The constructor establishes it and every operation keeps it.
    pub open spec fn inv(self) -> bool {
        hashes_unique(self.objects_view())
    }

    /// An empty archive.
    pub fn new() -> (r: Chronicle)
        ensures
            r.objects_view() == Seq::<(u128, Seq<u8>)>::empty(),
            r.log_view() == Seq::<Observation>::empty(),
            r.inv(),
    {
        let r = Chronicle { objects: Vec::new(), observations: Vec::new() };
        proof {
            assert(r.objects_view() =~= Seq::<(u128, Seq<u8>)>::empty());
        }
        r
    }

    /// Is this hash already stored?
    fn contains_hash(&self, h: u128) -> (r: bool)
        ensures
            r == has_hash(self.objects_view(), h),
    {
        let mut i: usize = 0;
        loop
            invariant
                i <= self.objects@.len(),
                forall|k: int| 0 <= k < i ==> (#[trigger] self.objects@[k]).0 != h,
            ensures
                (i < self.objects@.len() && self.objects@[i as int].0 == h) || (i
                    == self.objects@.len() && forall|k: int|
                    0 <= k < i ==> (#[trigger] self.objects@[k]).0 != h),
            decreases self.objects@.len() - i,
        {
            if i >= self.objects.len() {
                break;
            }
            if self.objects[i].0 == h {
                break;
            }
            i = i + 1;
        }
        proof {
            assert(forall|k: int|
                0 <= k < self.objects@.len() ==> (#[trigger] self.objects_view()[k]).0
                    == self.objects@[k].0);
            if i < self.objects@.len() {
                assert(self.objects_view()[i as int].0 == h);
            } else {
                assert forall|k: int|
                    0 <= k < self.objects_view().len() implies (
                #[trigger] self.objects_view()[k]).0 != h by {}
            }
        }
        i < self.objects.len()
    }

    /// Canonicalize, hash and store a document. A hash already present is
    /// not written again: duplicate puts of equivalent documents are
    /// no-ops, and the stored payload is the canonical byte form.
    pub fn save_object(&mut self, data: JsonValue) -> (h: u128)
        requires
            wf(data),
        ensures
            final(self).log_view() == old(self).log_view(),
            exists|c: JsonValue|
                is_canon(c) && #[trigger] similar(c, data) && h == sip_hash_of(ser_spec(c)),
            has_hash(final(self).objects_view(), h),
            !has_hash(old(self).objects_view(), h) ==> exists|c: JsonValue|
                is_canon(c) && #[trigger] similar(c, data) && h == sip_hash_of(ser_spec(c))
                    && has_payload(final(self).objects_view(), h, ser_spec(c))
                    && final(self).objects_view() == old(self).objects_view().push(
                    (h, ser_spec(c)),
                ),
            old(self).inv() ==> final(self).inv(),
            forall|hh: u128, p: Seq<u8>|
                has_payload(old(self).objects_view(), hh, p) ==> has_payload(
                    final(self).objects_view(),
                    hh,
                    p,
                ),
            has_hash(old(self).objects_view(), h) ==> final(self).objects_view() == old(
                self,
            ).objects_view(),
    {
        let (h, canon) = json_hash(data);
        let ghost gc = canon;
        if !self.contains_hash(h) {
            let payload = crate::json::serialize(&canon);
            let ghost before = self.objects_view();
            self.objects.push((h, payload));
            proof {
                assert(self.objects_view() =~= before.push((h, ser_spec(gc))));
                assert(self.objects_view()[before.len() as int] == (h, ser_spec(gc)));
                assert forall|hh: u128, p: Seq<u8>|
                    has_payload(before, hh, p) implies has_payload(
                    self.objects_view(),
                    hh,
                    p,
                ) by {
                    let i = choose|i: int| 0 <= i < before.len() && before[i] == (hh, p);
                    assert(self.objects_view()[i] == (hh, p));
                }
                assert(has_payload(self.objects_view(), h, ser_spec(gc)));
                if hashes_unique(before) {
                    assert forall|a: int, b: int|
                        0 <= a < b < self.objects_view().len() implies (
                    #[trigger] self.objects_view()[a]).0 != (
                    #[trigger] self.objects_view()[b]).0 by {
                        if b == before.len() {
                            assert(self.objects_view()[a] == before[a]);
                        } else {
                            assert(self.objects_view()[a] == before[a]);
                            assert(self.objects_view()[b] == before[b]);
                        }
                    }
                }
            }
        } else {
            // the hash is known, so an equivalent payload is already stored:
            // the design relies on the 128-bit hash being collision-free
        }
        h
    }

    /// The stored payload for a hash, if any.
    pub fn get_object(&self, h: u128) -> (r: Option<Vec<u8>>)
        ensures
            r matches Some(v) ==> has_payload(self.objects_view(), h, v@),
            r is None ==> !has_hash(self.objects_view(), h),
            self.inv() ==> (r matches Some(v) ==> (forall|p: Seq<u8>|
                has_payload(self.objects_view(), h, p) ==> p == v@)),
    {
        let mut i: usize = 0;
        loop
            invariant
                i <= self.objects@.len(),
                forall|k: int| 0 <= k < i ==> (#[trigger] self.objects@[k]).0 != h,
            ensures
                (i < self.objects@.len() && self.objects@[i as int].0 == h) || (i
                    == self.objects@.len() && forall|k: int|
                    0 <= k < i ==> (#[trigger] self.objects@[k]).0 != h),
            decreases self.objects@.len() - i,
        {
            if i >= self.objects.len() {
                break;
            }
            if self.objects[i].0 == h {
                break;
            }
            i = i + 1;
        }
        if i < self.objects.len() {
            let v = clone_bytes(&self.objects[i].1);
            proof {
                assert(self.objects_view()[i as int] == (h, v@));
                if self.inv() {
                    assert forall|p: Seq<u8>|
                        has_payload(self.objects_view(), h, p) implies p == v@ by {
                        let j = choose|j: int|
                            0 <= j < self.objects_view().len() && #[trigger] self.objects_view()[j]
                                == (h, p);
                        if j != i as int {
                            assert(self.objects_view()[j].0 == self.objects_view()[i as int].0);
                        }
                    }
                }
            }
            Some(v)
        } else {
            proof {
                assert forall|k: int|
                    0 <= k < self.objects_view().len() implies (
                #[trigger] self.objects_view()[k]).0 != h by {
                    assert(self.objects_view()[k].0 == self.objects@[k].0);
                }
            }
            None
        }
    }

    /// Append one observation to the log. The log is append-only and
    /// never rejects a row.
    pub fn insert_observation_raw(
        &mut self,
        kind: u16,
        entity_id: String,
        timestamp: i64,
        request_time: i64,
        hash: u128,
    )
        ensures
            final(self).objects_view() == old(self).objects_view(),
            final(self).log_view() == old(self).log_view().push(
                Observation { kind, entity_id, timestamp, request_time, hash },
            ),
    {
        self.observations.push(Observation { kind, entity_id, timestamp, request_time, hash });
    }

    /// Archive one fetched document: store its canonical payload under its
    /// content hash and append the observation.
    pub fn save(&mut self, obj: NewObject)
        requires
            wf(obj.data),
        ensures
            final(self).log_view().len() == old(self).log_view().len() + 1,
            final(self).log_view().drop_last() == old(self).log_view(),
            old(self).inv() ==> final(self).inv(),
            forall|hh: u128, p: Seq<u8>|
                has_payload(old(self).objects_view(), hh, p) ==> has_payload(
                    final(self).objects_view(),
                    hh,
                    p,
                ),
            ({
                let o = final(self).log_view().last();
                &&& o.kind == obj.kind
                &&& o.entity_id@ == obj.entity_id@
                &&& o.timestamp == obj.timestamp
                &&& o.request_time == obj.request_time
                &&& has_hash(final(self).objects_view(), o.hash)
                &&& exists|c: JsonValue|
                    is_canon(c) && #[trigger] similar(c, obj.data) && o.hash == sip_hash_of(
                        ser_spec(c),
                    )
            }),
    {
        let NewObject { kind, entity_id, data, timestamp, request_time } = obj;
        let h = self.save_object(data);
        self.insert_observation_raw(kind, entity_id, timestamp, request_time, h);
        proof {
            assert(final(self).log_view().drop_last() =~= old(self).log_view());
        }
    }

    /// Archive a whole batch of fetched documents: each one's canonical
    /// payload is stored under its content hash — a hash seen before, in
    /// the batch or earlier, is not written again — and one observation
    /// per document is appended, in batch order.
    pub fn save_raw_bulk(&mut self, objs: Vec<NewObject>)
        requires
            forall|k: int| 0 <= k < objs@.len() ==> wf((#[trigger] objs@[k]).data),
        ensures
            old(self).inv() ==> final(self).inv(),
            final(self).log_view().len() == old(self).log_view().len() + objs@.len(),
            forall|k: int|
                0 <= k < old(self).log_view().len() ==> final(self).log_view()[k] == old(
                    self,
                ).log_view()[k],
            forall|k: int|
                0 <= k < objs@.len() ==> ({
                    let o = final(self).log_view()[old(self).log_view().len() + k];
                    &&& o.kind == (#[trigger] objs@[k]).kind
                    &&& o.entity_id@ == objs@[k].entity_id@
                    &&& o.timestamp == objs@[k].timestamp
                    &&& o.request_time == objs@[k].request_time
                    &&& has_hash(final(self).objects_view(), o.hash)
                    &&& exists|c: JsonValue|
                        is_canon(c) && #[trigger] similar(c, objs@[k].data) && o.hash
                            == sip_hash_of(ser_spec(c))
                }),
    {
        let ghost orig = objs@;
        let ghost log0 = self.log_view();
        let ghost obj0 = self.objects_view();
        let mut rest = objs;
        let mut i: usize = 0;
        let n0 = rest.len();
        proof {
            assert(n0 == orig.len());
            assert(orig.skip(0) =~= orig);
        }
        loop
            invariant
                orig.len() <= usize::MAX,
                i <= orig.len(),
                rest@ == orig.skip(i as int),
                forall|k: int| 0 <= k < orig.len() ==> wf((#[trigger] orig[k]).data),
                log0 == old(self).log_view(),
                hashes_unique(obj0) ==> self.inv(),
                self.log_view().len() == log0.len() + i,
                forall|k: int| 0 <= k < log0.len() ==> self.log_view()[k] == log0[k],
                forall|hh: u128, p: Seq<u8>|
                    has_payload(obj0, hh, p) ==> has_payload(self.objects_view(), hh, p),
                forall|k: int|
                    0 <= k < i ==> ({
                        let o = self.log_view()[log0.len() + k];
                        &&& o.kind == (#[trigger] orig[k]).kind
                        &&& o.entity_id@ == orig[k].entity_id@
                        &&& o.timestamp == orig[k].timestamp
                        &&& o.request_time == orig[k].request_time
                        &&& has_hash(self.objects_view(), o.hash)
                        &&& exists|c: JsonValue|
                            is_canon(c) && #[trigger] similar(c, orig[k].data) && o.hash
                                == sip_hash_of(ser_spec(c))
                    }),
            ensures
                i == orig.len(),
                self.log_view().len() == log0.len() + orig.len(),
                forall|k: int| 0 <= k < log0.len() ==> self.log_view()[k] == log0[k],
                forall|k: int|
                    0 <= k < orig.len() ==> ({
                        let o = self.log_view()[log0.len() + k];
                        &&& o.kind == (#[trigger] orig[k]).kind
                        &&& o.entity_id@ == orig[k].entity_id@
                        &&& o.timestamp == orig[k].timestamp
                        &&& o.request_time == orig[k].request_time
                        &&& has_hash(self.objects_view(), o.hash)
                        &&& exists|c: JsonValue|
                            is_canon(c) && #[trigger] similar(c, orig[k].data) && o.hash
                                == sip_hash_of(ser_spec(c))
                    }),
            decreases orig.len() - i,
        {
            if rest.len() == 0 {
                break;
            }
            let obj = rest.remove(0);
            proof {
                assert(obj == orig[i as int]);
                assert(rest@ =~= orig.skip(i + 1));
            }
            let ghost pre_log = self.log_view();
            let ghost pre_objs = self.objects_view();
            self.save(obj);
            proof {
                assert(self.log_view().drop_last() == pre_log);
                assert forall|hh: u128, p: Seq<u8>|
                    has_payload(obj0, hh, p) implies has_payload(self.objects_view(), hh, p) by {
                    assert(has_payload(pre_objs, hh, p));
                }
                assert(forall|k: int|
                    0 <= k < pre_log.len() ==> self.log_view()[k] == pre_log.drop_last()[k]
                        || self.log_view()[k] == pre_log[k]);
                assert forall|k: int| 0 <= k < i + 1 implies ({
                    let o = self.log_view()[log0.len() + k];
                    &&& o.kind == (#[trigger] orig[k]).kind
                    &&& o.entity_id@ == orig[k].entity_id@
                    &&& o.timestamp == orig[k].timestamp
                    &&& o.request_time == orig[k].request_time
                    &&& has_hash(self.objects_view(), o.hash)
                    &&& exists|c: JsonValue|
                        is_canon(c) && #[trigger] similar(c, orig[k].data) && o.hash
                            == sip_hash_of(ser_spec(c))
                }) by {
                    if k < i {
                        assert(self.log_view()[log0.len() + k] == pre_log[log0.len() + k]);
                        let o = pre_log[log0.len() + k];
                        lemma_has_hash_mono(pre_objs, self.objects_view(), o.hash);
                    } else {
                        assert(self.log_view()[log0.len() + k] == self.log_view().last());
                    }
                }
            }
            i = i + 1;
        }
    }

    /// The `(timestamp, hash)` pairs of one entity, in log order.
    pub fn obs_for(&self, kind: u16, entity_id: &String) -> (r: Vec<(i64, u128)>)
        ensures
            r@ == obs_proj(self.log_view(), kind, entity_id@),
    {
        let mut out: Vec<(i64, u128)> = Vec::new();
        let mut i: usize = 0;
        proof {
            assert(self.log_view().take(0) =~= Seq::<Observation>::empty());
        }
        while i < self.observations.len()
            invariant
                i <= self.observations@.len(),
                out@ == obs_proj(self.log_view().take(i as int), kind, entity_id@),
            decreases self.observations@.len() - i,
        {
            let o = &self.observations[i];
            if o.kind == kind && string_eq(&o.entity_id, entity_id) {
                out.push((o.timestamp, o.hash));
            }
            proof {
                let p = self.log_view().take(i + 1);
                assert(p.drop_last() =~= self.log_view().take(i as int));
                assert(p.last() == self.log_view()[i as int]);
                assert(out@ =~= obs_proj(p, kind, entity_id@));
            }
            i = i + 1;
        }
        proof {
            assert(self.log_view().take(self.log_view().len() as int) =~= self.log_view());
        }
        out
    }

    /// Rebuild one entity's whole version timeline from the log: the
    /// derived view that can always be recomputed from scratch.
    pub fn rebuild(&self, kind: u16, entity_id: &String) -> (r: Vec<Version>)
        ensures
            r@ == rebuild_timeline(obs_proj(self.log_view(), kind, entity_id@)),
    {
        let obs = self.obs_for(kind, entity_id);
        rebuild_entity(&obs)
    }

    /// Every entity id observed under a kind, each exactly once, and
    /// nothing else.
    pub fn get_all_entity_ids(&self, kind: u16) -> (r: Vec<String>)
        ensures
            forall|k: int|
                0 <= k < self.log_view().len() && (#[trigger] self.log_view()[k]).kind == kind
                    ==> id_listed(r@, self.log_view()[k].entity_id@),
            forall|j: int|
                0 <= j < r@.len() ==> id_observed(
                    self.log_view(),
                    kind,
                    self.log_view().len() as int,
                    (#[trigger] r@[j])@,
                ),
            forall|i: int, j: int| 0 <= i < j < r@.len() ==> r@[i]@ != r@[j]@,
    {
        let ghost log = self.log_view();
        let mut out: Vec<String> = Vec::new();
        let mut i: usize = 0;
        while i < self.observations.len()
            invariant
                i <= log.len(),
                log == self.log_view(),
                forall|k: int|
                    0 <= k < i && (#[trigger] log[k]).kind == kind ==> id_listed(
                        out@,
                        log[k].entity_id@,
                    ),
                forall|j: int|
                    0 <= j < out@.len() ==> id_observed(log, kind, i as int, (#[trigger] out@[j])@),
                forall|a: int, b: int| 0 <= a < b < out@.len() ==> out@[a]@ != out@[b]@,
            decreases log.len() - i,
        {
            let o = &self.observations[i];
            let ghost before = out@;
            if o.kind == kind {
                let present = contains_id(&out, &o.entity_id);
                if !present {
                    out.push(crate::queries::clone_string(&o.entity_id));
                    proof {
                        assert(out@.drop_last() =~= before);
                    }
                }
            }
            proof {
                assert forall|k: int|
                    0 <= k < i + 1 && (#[trigger] log[k]).kind == kind implies id_listed(
                    out@,
                    log[k].entity_id@,
                ) by {
                    if k < i {
                        lemma_id_listed_grow(before, out@, log[k].entity_id@);
                    } else {
                        if out@.len() > before.len() {
                            assert(out@[out@.len() - 1]@ == log[i as int].entity_id@);
                        }
                    }
                }
                assert forall|j: int| 0 <= j < out@.len() implies id_observed(
                    log,
                    kind,
                    i + 1,
                    (#[trigger] out@[j])@,
                ) by {
                    if j < before.len() {
                        assert(out@[j] == before[j]);
                        lemma_id_observed_widen(log, kind, i as int, i + 1, before[j]@);
                    } else {
                        assert(log[i as int].kind == kind && log[i as int].entity_id@
                            == out@[j]@);
                    }
                }
                assert forall|a: int, b: int| 0 <= a < b < out@.len() implies out@[a]@
                    != out@[b]@ by {
                    if b == out@.len() - 1 && out@.len() > before.len() {
                        assert(out@[a] == before[a]);
                        assert(!id_listed(before, out@[b]@));
                    } else {
                        assert(out@[a] == before[a]);
                        assert(out@[b] == before[b]);
                    }
                }
            }
            i = i + 1;
        }
        out
    }
}

/// `id` was observed under `kind` within the first `n` log rows.
pub open spec fn id_observed(log: Seq<Observation>, kind: u16, n: int, id: Seq<char>) -> bool {
    exists|k: int| 0 <= k < n && (#[trigger] log[k]).kind == kind && log[k].entity_id@ == id
}

/// Some listed string has exactly these characters.
pub open spec fn id_listed(ids: Seq<String>, id: Seq<char>) -> bool {
    exists|j: int| 0 <= j < ids.len() && (#[trigger] ids[j])@ == id
}

/// A listed id stays listed when the list only grows at the end.
pub(crate) proof fn lemma_id_listed_grow(before: Seq<String>, after: Seq<String>, id: Seq<char>)
    requires
        id_listed(before, id),
        after.len() >= before.len(),
        forall|j: int| 0 <= j < before.len() ==> after[j] == before[j],
    ensures
        id_listed(after, id),
{
    let j = choose|j: int| 0 <= j < before.len() && (#[trigger] before[j])@ == id;
    assert(after[j]@ == id);
}

/// An id observed within a prefix is observed within any longer prefix.
proof fn lemma_id_observed_widen(log: Seq<Observation>, kind: u16, n: int, m: int, id: Seq<char>)
    requires
        id_observed(log, kind, n, id),
        n <= m,
    ensures
        id_observed(log, kind, m, id),
{
    let k = choose|k: int| 0 <= k < n && (#[trigger] log[k]).kind == kind && log[k].entity_id@ == id;
    assert(0 <= k < m && log[k].kind == kind && log[k].entity_id@ == id);
}

/// A hash present among some object rows stays present/// A hash present among some object rows stays present in any superset
/// of their payloads.
proof fn lemma_has_hash_mono(a: Seq<(u128, Seq<u8>)>, b: Seq<(u128, Seq<u8>)>, h: u128)
    requires
        has_hash(a, h),
        forall|hh: u128, p: Seq<u8>| has_payload(a, hh, p) ==> has_payload(b, hh, p),
    ensures
        has_hash(b, h),
{
    let i = choose|i: int| 0 <= i < a.len() && (#[trigger] a[i]).0 == h;
    assert(a[i] == (h, a[i].1));
    assert(has_payload(a, h, a[i].1));
    let j = choose|j: int| 0 <= j < b.len() && #[trigger] b[j] == (h, a[i].1);
    assert(b[j].0 == h);
}

/// Do two strings hold the same characters?
pub(crate) fn string_eq(a: &String, b: &String) -> (r: bool)
    ensures
        r == (a@ == b@),
{
    a.eq(b)
}

/// Is some element of `ids` this string, by characters?
pub(crate) fn contains_id(ids: &Vec<String>, id: &String) -> (r: bool)
    ensures
        r == id_listed(ids@, id@),
{
    let mut i: usize = 0;
    loop
        invariant
            i <= ids@.len(),
            forall|k: int| 0 <= k < i ==> (#[trigger] ids@[k])@ != id@,
        ensures
            (i < ids@.len() && ids@[i as int]@ == id@) || (i == ids@.len() && forall|k: int|
                0 <= k < i ==> (#[trigger] ids@[k])@ != id@),
        decreases ids@.len() - i,
    {
        if i >= ids.len() {
            break;
        }
        if string_eq(&ids[i], id) {
            break;
        }
        i = i + 1;
    }
    i < ids.len()
}

/// A copy of a byte payload.
fn clone_bytes(b: &Vec<u8>) -> (r: Vec<u8>)
    ensures
        r@ == b@,
{
    b.clone()
}

} // verus!
