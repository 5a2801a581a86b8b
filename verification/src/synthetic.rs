//! The derivation pipeline: pure transforms from one entity version to
//! derived versions — lite projections with heavy subtrees removed, and
//! the talk subtree split into entities of its own.

use crate::json::{has_key, similar, str_eq, wf, JsonValue};
use crate::models::EntityKind;
use crate::queries::clone_string;
use vstd::prelude::*;

verus! {

/// The members of an object with one key struck out.
pub open spec fn remove_key(
    kvs: Seq<(String, JsonValue)>,
    k: Seq<char>,
) -> Seq<(String, JsonValue)>
    decreases kvs.len(),
{
    if kvs.len() == 0 {
        Seq::empty()
    } else if kvs.last().0@ == k {
        remove_key(kvs.drop_last(), k)
    } else {
        remove_key(kvs.drop_last(), k).push(kvs.last())
    }
}

/// Strike one member out of an object; anything but an object passes
/// through unchanged.
pub fn obj_remove(v: JsonValue, key: &str) -> (r: JsonValue)
    ensures
        v matches JsonValue::Obj(kvs) ==> (r matches JsonValue::Obj(rk) && rk@ == remove_key(
            kvs@,
            key@,
        )),
        !(v is Obj) ==> r == v,
{
    match v {
        JsonValue::Obj(kvs) => {
            let ghost orig = kvs@;
            let mut rest = kvs;
            let mut out: Vec<(String, JsonValue)> = Vec::new();
            let mut i: usize = 0;
            let n0 = rest.len();
            proof {
                assert(n0 == orig.len());
                assert(orig.take(0) =~= Seq::<(String, JsonValue)>::empty());
                assert(orig.skip(0) =~= orig);
            }
            loop
                invariant
                    orig.len() <= usize::MAX,
                    i <= orig.len(),
                    rest@ == orig.skip(i as int),
                    out@ == remove_key(orig.take(i as int), key@),
                ensures
                    out@ == remove_key(orig, key@),
                decreases orig.len() - i,
            {
                if rest.len() == 0 {
                    proof {
                        assert(orig.take(orig.len() as int) =~= orig);
                    }
                    break;
                }
                let kv = rest.remove(0);
                proof {
                    assert(kv == orig[i as int]);
                    assert(rest@ =~= orig.skip(i + 1));
                    assert(orig.take(i + 1).drop_last() =~= orig.take(i as int));
                    assert(orig.take(i + 1).last() == orig[i as int]);
                }
                if !str_eq(kv.0.as_str(), key) {
                    out.push(kv);
                }
                i = i + 1;
            }
            JsonValue::Obj(out)
        },
        other => other,
    }
}

/// A deep copy of a well-formed document: the same tree with the same
/// member order, equal to the original up to reordering — that is, not
/// reordered at all.
pub fn jclone(v: &JsonValue) -> (r: JsonValue)
    ensures
        wf(*v) ==> wf(r) && similar(r, *v),
    decreases *v,
{
    match v {
        JsonValue::Null => JsonValue::Null,
        JsonValue::Bool(b) => JsonValue::Bool(*b),
        JsonValue::Num(s) => JsonValue::Num(clone_string(s)),
        JsonValue::Str(s) => JsonValue::Str(clone_string(s)),
        JsonValue::Arr(items) => {
            proof {
                assert(items@.skip(0) =~= items@);
            }
            let r = jclone_list(items, 0);
            proof {
                if wf(*v) {
                    crate::json::lemma_wf_list_iff(items@);
                    crate::json::lemma_wf_list_iff(r@);
                    crate::json::lemma_similar_list_iff(r@, items@);
                }
            }
            JsonValue::Arr(r)
        },
        JsonValue::Obj(kvs) => {
            proof {
                assert(kvs@.skip(0) =~= kvs@);
            }
            let r = jclone_entries(kvs, 0);
            proof {
                if wf(*v) {
                    crate::json::lemma_wf_entries_iff(kvs@);
                    crate::json::lemma_wf_entries_iff(r@);
                    assert forall|i: int, j: int| 0 <= i < j < r@.len() implies r@[i].0@
                        != r@[j].0@ by {
                        assert(r@[i].0@ == kvs@[i].0@);
                        assert(r@[j].0@ == kvs@[j].0@);
                    }
                    assert forall|j: int| 0 <= j < kvs@.len() implies has_key(
                        r@,
                        (#[trigger] kvs@[j]).0@,
                    ) by {
                        assert(r@[j].0@ == kvs@[j].0@);
                    }
                    assert forall|i: int| 0 <= i < r@.len() implies crate::json::entry_match(
                        #[trigger] r@[i],
                        kvs@,
                    ) by {
                        assert(kvs@[i].0@ == r@[i].0@ && similar(r@[i].1, kvs@[i].1));
                        assert(crate::json::entry_match(r@[i], kvs@));
                    }
                }
            }
            JsonValue::Obj(r)
        },
    }
}

/// Copies of the elements `items[i..]`.
fn jclone_list(items: &Vec<JsonValue>, i: usize) -> (r: Vec<JsonValue>)
    requires
        i <= items@.len(),
    ensures
        r@.len() == items@.len() - i,
        forall|k: int| 0 <= k < r@.len() ==> (wf(items@[i + k]) ==> wf(#[trigger] r@[k]) && similar(
            r@[k],
            items@[i + k],
        )),
    decreases items@.skip(i as int),
{
    if i < items.len() {
        proof {
            assert(items@.skip(i as int)[0] == items@[i as int]);
            assert(items@.skip(i + 1) =~= items@.skip(i as int).drop_first());
        }
        let first = jclone(&items[i]);
        let mut rest = jclone_list(items, i + 1);
        rest.insert(0, first);
        proof {
            assert forall|k: int| 0 <= k < rest@.len() && wf(items@[i + k]) implies wf(
                #[trigger] rest@[k],
            ) && similar(rest@[k], items@[i + k]) by {
                if k > 0 {
                    assert(rest@[k] == rest@.drop_first()[k - 1]);
                }
            }
        }
        rest
    } else {
        Vec::new()
    }
}

/// Copies of the members `kvs[i..]`, keys and order kept.
fn jclone_entries(kvs: &Vec<(String, JsonValue)>, i: usize) -> (r: Vec<(String, JsonValue)>)
    requires
        i <= kvs@.len(),
    ensures
        r@.len() == kvs@.len() - i,
        forall|k: int| 0 <= k < r@.len() ==> (#[trigger] r@[k]).0@ == kvs@[i + k].0@,
        forall|k: int| 0 <= k < r@.len() ==> (wf(kvs@[i + k].1) ==> wf((#[trigger] r@[k]).1)
            && similar(r@[k].1, kvs@[i + k].1)),
    decreases kvs@.skip(i as int),
{
    if i < kvs.len() {
        proof {
            assert(kvs@.skip(i as int)[0] == kvs@[i as int]);
            assert(kvs@.skip(i + 1) =~= kvs@.skip(i as int).drop_first());
        }
        let key = clone_string(&kvs[i].0);
        let val = jclone(&kvs[i].1);
        let mut rest = jclone_entries(kvs, i + 1);
        rest.insert(0, (key, val));
        proof {
            assert forall|k: int| 0 <= k < rest@.len() implies ((#[trigger] rest@[k]).0@ == kvs@[i
                + k].0@ && (wf(kvs@[i + k].1) ==> wf(rest@[k].1) && similar(
                rest@[k].1,
                kvs@[i + k].1,
            ))) by {
                if k > 0 {
                    assert(rest@[k] == rest@.drop_first()[k - 1]);
                }
            }
        }
        rest
    } else {
        Vec::new()
    }
}

/// A copy of the named member's value, if the document is an object that
/// has it.
pub fn obj_take(v: &JsonValue, key: &str) -> (r: Option<JsonValue>)
    requires
        wf(*v),
    ensures
        r is Some <==> (v matches JsonValue::Obj(kvs) && has_key(kvs@, key@)),
        r matches Some(x) ==> (v matches JsonValue::Obj(kvs) && exists|i: int|
            0 <= i < kvs@.len() && (#[trigger] kvs@[i]).0@ == key@ && wf(x) && similar(
                x,
                kvs@[i].1,
            )),
{
    match v {
        JsonValue::Obj(kvs) => {
            let ghost gkvs = kvs@;
            let mut i: usize = 0;
            loop
                invariant
                    i <= gkvs.len(),
                    gkvs == kvs@,
                    forall|k: int| 0 <= k < i ==> (#[trigger] gkvs[k]).0@ != key@,
                    wf(*v),
                ensures
                    (i < gkvs.len() && gkvs[i as int].0@ == key@) || (i == gkvs.len() && forall|
                        k: int,
                    | 0 <= k < i ==> (#[trigger] gkvs[k]).0@ != key@),
                decreases gkvs.len() - i,
            {
                if i >= kvs.len() {
                    break;
                }
                if str_eq(kvs[i].0.as_str(), key) {
                    break;
                }
                i = i + 1;
            }
            if i < kvs.len() {
                proof {
                    crate::json::lemma_wf_entries_iff(gkvs);
                }
                Some(jclone(&kvs[i].1))
            } else {
                None
            }
        },
        _ => None,
    }
}

/// A derived document on its way into the store, sharing the source
/// observation's instant.
pub struct SyntheticObject {
    pub kind: EntityKind,
    pub entity_id: String,
    pub data: JsonValue,
}

/// The lite projection of a player document strips the member `lite`
/// lacks: `Stats` and `Feed` struck from a copy of the original.
pub open spec fn stripped_player(lite: JsonValue, c: JsonValue) -> bool {
    &&& (c matches JsonValue::Obj(ck) ==> (lite matches JsonValue::Obj(lk) && lk@ == remove_key(
        remove_key(ck@, "Stats"@),
        "Feed"@,
    )))
    &&& (!(c is Obj) ==> lite == c)
}

/// The archived talk entity carries this axis exactly when its data has
/// the member: at most one output of the axis kind, and that output's
/// data is equal up to member order to the member's value.
pub open spec fn axis_outputs(
    r: Seq<SyntheticObject>,
    talk: JsonValue,
    key: Seq<char>,
    kind: EntityKind,
) -> bool {
    &&& ((talk matches JsonValue::Obj(tk) && has_key(tk@, key)) <==> (exists|k: int|
        2 <= k < r.len() && (#[trigger] r[k]).kind == kind))
    &&& (forall|k: int|
        2 <= k < r.len() && (#[trigger] r[k]).kind == kind ==> (talk matches JsonValue::Obj(tk)
            && exists|i: int|
            0 <= i < tk@.len() && (#[trigger] tk@[i]).0@ == key && similar(r[k].data, tk@[i].1)))
    &&& (forall|k1: int, k2: int|
        2 <= k1 < k2 < r.len() ==> !((#[trigger] r[k1]).kind == kind && (#[trigger] r[k2]).kind
            == kind))
}

/// Bookkeeping for one axis while the outputs are built: where its
/// entity sits, if anywhere, and that it sits there exactly when the
/// subtree carries the member.
pub open spec fn axis_state(
    r: Seq<SyntheticObject>,
    talk: JsonValue,
    key: Seq<char>,
    kind: EntityKind,
    pos: Option<int>,
) -> bool {
    &&& (pos matches Some(p) ==> 2 <= p < r.len() && r[p].kind == kind && (talk
        matches JsonValue::Obj(tk) && exists|i: int|
        0 <= i < tk@.len() && (#[trigger] tk@[i]).0@ == key && similar(r[p].data, tk@[i].1)))
    &&& (forall|k: int| 2 <= k < r.len() && (#[trigger] r[k]).kind == kind ==> pos == Some(k))
    &&& (pos is Some <==> (talk matches JsonValue::Obj(tk2) && has_key(tk2@, key)))
}

/// The bookkeeping implies the axis contract.
proof fn lemma_axis_state_outputs(
    r: Seq<SyntheticObject>,
    talk: JsonValue,
    key: Seq<char>,
    kind: EntityKind,
    pos: Option<int>,
)
    requires
        axis_state(r, talk, key, kind, pos),
    ensures
        axis_outputs(r, talk, key, kind),
{
    match pos {
        Some(p) => {
            assert(2 <= p < r.len() && (#[trigger] r[p]).kind == kind);
        },
        None => {},
    }
}

/// The derived documents of one player version: always the lite
/// projection, then the `Talk` subtree and one entity per named axis the
/// subtree carries. Every derived entity keeps the player's id.
pub fn derive_from_player(entity_id: &str, data: &JsonValue) -> (r: Vec<SyntheticObject>)
    requires
        wf(*data),
    ensures
        r@.len() >= 1,
        r@[0].kind == EntityKind::PlayerLite,
        exists|c: JsonValue|
            wf(c) && #[trigger] similar(c, *data) && stripped_player(r@[0].data, c),
        forall|k: int| 0 <= k < r@.len() ==> (#[trigger] r@[k]).entity_id@ == entity_id@,
        (data matches JsonValue::Obj(kvs) && has_key(kvs@, "Talk"@)) <==> (r@.len() >= 2),
        r@.len() >= 2 ==> (r@[1].kind == EntityKind::Talk && (data matches JsonValue::Obj(kvs)
            && exists|i: int|
            0 <= i < kvs@.len() && (#[trigger] kvs@[i]).0@ == "Talk"@ && similar(
                r@[1].data,
                kvs@[i].1,
            ))),
        forall|k: int| 2 <= k < r@.len() ==> ((#[trigger] r@[k]).kind == EntityKind::TalkBatting
            || r@[k].kind == EntityKind::TalkPitching || r@[k].kind
            == EntityKind::TalkBaserunning || r@[k].kind == EntityKind::TalkDefense),
        r@.len() >= 2 ==> axis_outputs(r@, r@[1].data, "Batting"@, EntityKind::TalkBatting),
        r@.len() >= 2 ==> axis_outputs(r@, r@[1].data, "Pitching"@, EntityKind::TalkPitching),
        r@.len() >= 2 ==> axis_outputs(r@, r@[1].data, "Baserunning"@, EntityKind::TalkBaserunning),
        r@.len() >= 2 ==> axis_outputs(r@, r@[1].data, "Defense"@, EntityKind::TalkDefense),
{
    let mut out: Vec<SyntheticObject> = Vec::new();
    let copy = jclone(data);
    let lite = obj_remove(obj_remove(copy, "Stats"), "Feed");
    out.push(SyntheticObject {
        kind: EntityKind::PlayerLite,
        entity_id: str_to_string(entity_id),
        data: lite,
    });
    let talk = obj_take(data, "Talk");
    match talk {
        Some(t) => {
            // the axes are read from the same subtree that is archived as
            // the talk entity, so their contracts speak of its members
            let ghost gt = t;
            let batting = obj_take(&t, "Batting");
            let pitching = obj_take(&t, "Pitching");
            let baserunning = obj_take(&t, "Baserunning");
            let defense = obj_take(&t, "Defense");
            let ghost b_has = batting is Some;
            let ghost p_has = pitching is Some;
            let ghost r_has = baserunning is Some;
            let ghost d_has = defense is Some;
            let ghost mut b_pos: Option<int> = None;
            let ghost mut p_pos: Option<int> = None;
            let ghost mut r_pos: Option<int> = None;
            let ghost mut d_pos: Option<int> = None;
            out.push(SyntheticObject {
                kind: EntityKind::Talk,
                entity_id: str_to_string(entity_id),
                data: t,
            });
            match batting {
                Some(x) => {
                    proof {
                        b_pos = Some(out@.len() as int);
                    }
                    out.push(SyntheticObject {
                        kind: EntityKind::TalkBatting,
                        entity_id: str_to_string(entity_id),
                        data: x,
                    });
                },
                None => (),
            }
            proof {
                assert(axis_state(out@, gt, "Batting"@, EntityKind::TalkBatting, b_pos));
            }
            match pitching {
                Some(x) => {
                    proof {
                        p_pos = Some(out@.len() as int);
                    }
                    out.push(SyntheticObject {
                        kind: EntityKind::TalkPitching,
                        entity_id: str_to_string(entity_id),
                        data: x,
                    });
                },
                None => (),
            }
            proof {
                assert(axis_state(out@, gt, "Batting"@, EntityKind::TalkBatting, b_pos));
                assert(axis_state(out@, gt, "Pitching"@, EntityKind::TalkPitching, p_pos));
            }
            match baserunning {
                Some(x) => {
                    proof {
                        r_pos = Some(out@.len() as int);
                    }
                    out.push(SyntheticObject {
                        kind: EntityKind::TalkBaserunning,
                        entity_id: str_to_string(entity_id),
                        data: x,
                    });
                },
                None => (),
            }
            proof {
                assert(axis_state(out@, gt, "Batting"@, EntityKind::TalkBatting, b_pos));
                assert(axis_state(out@, gt, "Pitching"@, EntityKind::TalkPitching, p_pos));
                assert(axis_state(out@, gt, "Baserunning"@, EntityKind::TalkBaserunning, r_pos));
            }
            match defense {
                Some(x) => {
                    proof {
                        d_pos = Some(out@.len() as int);
                    }
                    out.push(SyntheticObject {
                        kind: EntityKind::TalkDefense,
                        entity_id: str_to_string(entity_id),
                        data: x,
                    });
                },
                None => (),
            }
            proof {
                assert(axis_state(out@, gt, "Batting"@, EntityKind::TalkBatting, b_pos));
                assert(axis_state(out@, gt, "Pitching"@, EntityKind::TalkPitching, p_pos));
                assert(axis_state(out@, gt, "Baserunning"@, EntityKind::TalkBaserunning, r_pos));
                assert(axis_state(out@, gt, "Defense"@, EntityKind::TalkDefense, d_pos));
                assert(out@[1].data == gt);
                lemma_axis_state_outputs(out@, gt, "Batting"@, EntityKind::TalkBatting, b_pos);
                lemma_axis_state_outputs(out@, gt, "Pitching"@, EntityKind::TalkPitching, p_pos);
                lemma_axis_state_outputs(
                    out@,
                    gt,
                    "Baserunning"@,
                    EntityKind::TalkBaserunning,
                    r_pos,
                );
                lemma_axis_state_outputs(out@, gt, "Defense"@, EntityKind::TalkDefense, d_pos);
            }
        },
        None => (),
    }
    out
}

/// One element of a team's `Players` array with its `Stats` struck out;
/// anything but an object passes through.
pub open spec fn elem_stripped(r: JsonValue, v: JsonValue) -> bool {
    &&& (v matches JsonValue::Obj(k) ==> (r matches JsonValue::Obj(rk) && rk@ == remove_key(
        k@,
        "Stats"@,
    )))
    &&& (!(v is Obj) ==> r == v)
}

/// The members of a team document after the lite projection: `Feed`
/// struck out, every player of the `Players` array stripped of `Stats`,
/// everything else as it was.
pub open spec fn team_entries_rel(
    rk: Seq<(String, JsonValue)>,
    kvs: Seq<(String, JsonValue)>,
) -> bool
    decreases kvs.len(),
{
    if kvs.len() == 0 {
        rk.len() == 0
    } else if kvs.last().0@ == "Feed"@ {
        team_entries_rel(rk, kvs.drop_last())
    } else {
        &&& rk.len() > 0
        &&& rk.last().0@ == kvs.last().0@
        &&& team_entry_value_rel(rk.last().1, kvs.last().1, kvs.last().0@)
        &&& team_entries_rel(rk.drop_last(), kvs.drop_last())
    }
}

/// The value of one kept member: the `Players` array is mapped element by
/// element, every other value is kept.
pub open spec fn team_entry_value_rel(rv: JsonValue, vv: JsonValue, key: Seq<char>) -> bool {
    if key == "Players"@ {
        &&& (vv matches JsonValue::Arr(it) ==> (rv matches JsonValue::Arr(ri) && ri@.len()
            == it@.len() && (forall|k: int|
            0 <= k < it@.len() ==> elem_stripped(#[trigger] ri@[k], it@[k]))))
        &&& (!(vv is Arr) ==> rv == vv)
    } else {
        rv == vv
    }
}

/// The lite projection of a team document.
pub fn to_team_lite(v: JsonValue) -> (r: JsonValue)
    ensures
        v matches JsonValue::Obj(kvs) ==> (r matches JsonValue::Obj(rk) && team_entries_rel(
            rk@,
            kvs@,
        )),
        !(v is Obj) ==> r == v,
{
    match v {
        JsonValue::Obj(kvs) => {
            let ghost orig = kvs@;
            let mut rest = kvs;
            let mut out: Vec<(String, JsonValue)> = Vec::new();
            let mut i: usize = 0;
            let n0 = rest.len();
            proof {
                assert(n0 == orig.len());
                assert(orig.take(0) =~= Seq::<(String, JsonValue)>::empty());
                assert(orig.skip(0) =~= orig);
            }
            loop
                invariant
                    orig.len() <= usize::MAX,
                    i <= orig.len(),
                    rest@ == orig.skip(i as int),
                    team_entries_rel(out@, orig.take(i as int)),
                ensures
                    team_entries_rel(out@, orig),
                decreases orig.len() - i,
            {
                if rest.len() == 0 {
                    proof {
                        assert(orig.take(orig.len() as int) =~= orig);
                    }
                    break;
                }
                let kv = rest.remove(0);
                proof {
                    assert(kv == orig[i as int]);
                    assert(rest@ =~= orig.skip(i + 1));
                    assert(orig.take(i + 1).drop_last() =~= orig.take(i as int));
                    assert(orig.take(i + 1).last() == orig[i as int]);
                }
                let (key, val) = kv;
                let ghost out_before = out@;
                if str_eq(key.as_str(), "Feed") {
                    proof {
                        assert(team_entries_rel(out@, orig.take(i + 1)));
                    }
                } else if str_eq(key.as_str(), "Players") {
                    let lite_val = strip_players(val);
                    out.push((key, lite_val));
                    proof {
                        assert(out@.drop_last() =~= out_before);
                        assert(team_entries_rel(out@, orig.take(i + 1)));
                    }
                } else {
                    out.push((key, val));
                    proof {
                        assert(out@.drop_last() =~= out_before);
                        assert(team_entries_rel(out@, orig.take(i + 1)));
                    }
                }
                i = i + 1;
            }
            JsonValue::Obj(out)
        },
        other => other,
    }
}

/// Strip `Stats` from every object of a `Players` array.
fn strip_players(v: JsonValue) -> (r: JsonValue)
    ensures
        team_entry_value_rel(r, v, "Players"@),
{
    match v {
        JsonValue::Arr(items) => {
            let ghost orig = items@;
            let mut rest = items;
            let mut out: Vec<JsonValue> = Vec::new();
            let mut i: usize = 0;
            let n0 = rest.len();
            proof {
                assert(n0 == orig.len());
                assert(orig.skip(0) =~= orig);
            }
            loop
                invariant
                    orig.len() <= usize::MAX,
                    i <= orig.len(),
                    rest@ == orig.skip(i as int),
                    out@.len() == i,
                    forall|k: int| 0 <= k < i ==> elem_stripped(#[trigger] out@[k], orig[k]),
                ensures
                    out@.len() == orig.len(),
                    forall|k: int| 0 <= k < orig.len() ==> elem_stripped(
                        #[trigger] out@[k],
                        orig[k],
                    ),
                decreases orig.len() - i,
            {
                if rest.len() == 0 {
                    break;
                }
                let e = rest.remove(0);
                proof {
                    assert(e == orig[i as int]);
                    assert(rest@ =~= orig.skip(i + 1));
                }
                let stripped = obj_remove(e, "Stats");
                out.push(stripped);
                i = i + 1;
            }
            JsonValue::Arr(out)
        },
        other => other,
    }
}

/// The derived documents of one team version: its lite projection, under
/// the team's own id.
pub fn derive_from_team(entity_id: &str, data: &JsonValue) -> (r: Vec<SyntheticObject>)
    requires
        wf(*data),
    ensures
        r@.len() == 1,
        r@[0].kind == EntityKind::TeamLite,
        r@[0].entity_id@ == entity_id@,
        exists|c: JsonValue|
            wf(c) && #[trigger] similar(c, *data) && ((c matches JsonValue::Obj(ck) ==> (r@[0].data
                matches JsonValue::Obj(rk) && team_entries_rel(rk@, ck@))) && (!(c is Obj)
                ==> r@[0].data == c)),
{
    let copy = jclone(data);
    let ghost gc = copy;
    let lite = to_team_lite(copy);
    let mut out: Vec<SyntheticObject> = Vec::new();
    out.push(SyntheticObject {
        kind: EntityKind::TeamLite,
        entity_id: str_to_string(entity_id),
        data: lite,
    });
    out
}

/// What one archived version derives: players and teams project to their
/// lite and talk entities, every other kind derives nothing.
pub fn derive_from(kind: EntityKind, entity_id: &str, data: &JsonValue) -> (r: Vec<
    SyntheticObject,
>)
    requires
        wf(*data),
    ensures
        !(kind == EntityKind::Player || kind == EntityKind::Team) ==> r@.len() == 0,
        kind == EntityKind::Player ==> r@.len() >= 1 && r@[0].kind == EntityKind::PlayerLite,
        kind == EntityKind::Team ==> r@.len() == 1 && r@[0].kind == EntityKind::TeamLite,
        forall|k: int| 0 <= k < r@.len() ==> (#[trigger] r@[k]).entity_id@ == entity_id@,
{
    match kind {
        EntityKind::Player => derive_from_player(entity_id, data),
        EntityKind::Team => derive_from_team(entity_id, data),
        _ => Vec::new(),
    }
}

/// An owned copy of a borrowed string.
fn str_to_string(s: &str) -> (r: String)
    ensures
        r@ == s@,
{
    String::from_str(s)
}

} // verus!
