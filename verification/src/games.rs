//! Game ingestion decisions: the live delta path, event enrichment, and
//! name resolution against roster history.

use crate::json::{distinct_keys, str_eq, wf, JsonValue};
use crate::models::{MmolbGameEvent, MmolbTeam, MmolbTeamPlayer};
use crate::queries::clone_string;
use vstd::prelude::*;

verus! {

/// "First Last", as names appear in game events.
pub open spec fn full_name_of(first: Seq<char>, last: Seq<char>) -> Seq<char> {
    first + seq![' '] + last
}

/// The position kind of a roster slot, an absent one reading as empty.
pub open spec fn slot_position(slot: MmolbTeamPlayer) -> Seq<char> {
    match slot.position_type {
        Some(p) => p@,
        None => Seq::empty(),
    }
}

/// This slot answers to the given full name in the given position kind.
pub open spec fn slot_matches(slot: MmolbTeamPlayer, name: Seq<char>, ptype: Seq<char>) -> bool {
    full_name_of(slot.first_name@, slot.last_name@) == name && slot_position(slot) == ptype
}

/// Does this roster slot carry the name and position kind?
fn check_slot(slot: &MmolbTeamPlayer, name: &str, ptype: &str) -> (r: bool)
    ensures
        r == slot_matches(*slot, name@, ptype@),
{
    let mut fl = crate::queries::clone_string(&slot.first_name);
    fl.append(" ");
    fl.append(slot.last_name.as_str());
    proof {
        reveal_strlit(" ");
        assert(" "@ =~= seq![' ']);
        assert(fl@ == full_name_of(slot.first_name@, slot.last_name@));
    }
    if !str_eq(fl.as_str(), name) {
        return false;
    }
    match &slot.position_type {
        Some(p) => str_eq(p.as_str(), ptype),
        None => {
            let r = ptype.unicode_len() == 0;
            proof {
                if ptype@.len() == 0 {
                    assert(ptype@ =~= Seq::<char>::empty());
                }
            }
            r
        },
    }
}

/// Exactly one roster slot answers to this name and position kind.
pub open spec fn unique_slot_match(t: MmolbTeam, name: Seq<char>, ptype: Seq<char>) -> bool {
    exists|i: int|
        0 <= i < t.players@.len() && #[trigger] slot_matches(t.players@[i], name, ptype) && (
        forall|j: int|
            0 <= j < t.players@.len() && j != i ==> !slot_matches(
                #[trigger] t.players@[j],
                name,
                ptype,
            ))
}

/// Resolve an event's player name to an id against a team roster: the
/// slot whose full name and position kind match, but only if that slot is
/// unique — an ambiguous name resolves to nothing.
pub fn try_find_player_by_name(team: &MmolbTeam, player_name: &str, position_type: &str) -> (r:
    Option<String>)
    ensures
        r is Some <==> unique_slot_match(*team, player_name@, position_type@),
        r matches Some(id) ==> exists|i: int|
            0 <= i < team.players@.len() && slot_matches(
                #[trigger] team.players@[i],
                player_name@,
                position_type@,
            ) && id@ == team.players@[i].player_id@ && (forall|j: int|
                0 <= j < team.players@.len() && j != i ==> !slot_matches(
                    #[trigger] team.players@[j],
                    player_name@,
                    position_type@,
                )),
{
    let mut found: Option<usize> = None;
    let mut i: usize = 0;
    loop
        invariant
            i <= team.players@.len(),
            found matches Some(f) ==> f < i && slot_matches(
                team.players@[f as int],
                player_name@,
                position_type@,
            ) && (forall|k: int|
                0 <= k < i && k != f ==> !slot_matches(
                    #[trigger] team.players@[k],
                    player_name@,
                    position_type@,
                )),
            found is None ==> forall|k: int|
                0 <= k < i ==> !slot_matches(
                    #[trigger] team.players@[k],
                    player_name@,
                    position_type@,
                ),
        ensures
            i == team.players@.len() || (found matches Some(f) && exists|j: int|
                (f as int) < j < team.players@.len() && slot_matches(
                    #[trigger] team.players@[j],
                    player_name@,
                    position_type@,
                )),
        decreases team.players@.len() - i,
    {
        if i >= team.players.len() {
            break;
        }
        if check_slot(&team.players[i], player_name, position_type) {
            match found {
                Some(_) => {
                    proof {
                        assert(slot_matches(team.players@[i as int], player_name@, position_type@));
                    }
                    break;
                },
                None => {
                    found = Some(i);
                },
            }
        }
        i = i + 1;
    }
    if i < team.players.len() {
        proof {
            if unique_slot_match(*team, player_name@, position_type@) {
                let k = choose|k: int|
                    0 <= k < team.players@.len() && #[trigger] slot_matches(
                        team.players@[k],
                        player_name@,
                        position_type@,
                    ) && (forall|j2: int|
                        0 <= j2 < team.players@.len() && j2 != k ==> !slot_matches(
                            #[trigger] team.players@[j2],
                            player_name@,
                            position_type@,
                        ));
                let f0 = found->0 as int;
                let j0 = choose|j0: int|
                    f0 < j0 < team.players@.len() && slot_matches(
                        #[trigger] team.players@[j0],
                        player_name@,
                        position_type@,
                    );
                if k != f0 {
                    assert(!slot_matches(team.players@[f0], player_name@, position_type@));
                } else {
                    assert(!slot_matches(team.players@[j0], player_name@, position_type@));
                }
                assert(false);
            }
        }
        None
    } else {
        match found {
            Some(f) => {
                proof {
                    assert(slot_matches(team.players@[f as int], player_name@, position_type@));
                    assert(unique_slot_match(*team, player_name@, position_type@));
                }
                Some(clone_string(&team.players[f].player_id))
            },
            None => {
                proof {
                    if unique_slot_match(*team, player_name@, position_type@) {
                        let k = choose|k: int|
                            0 <= k < team.players@.len() && #[trigger] slot_matches(
                                team.players@[k],
                                player_name@,
                                position_type@,
                            ) && (forall|j2: int|
                                0 <= j2 < team.players@.len() && j2 != k ==> !slot_matches(
                                    #[trigger] team.players@[j2],
                                    player_name@,
                                    position_type@,
                                ));
                        assert(!slot_matches(team.players@[k], player_name@, position_type@));
                        assert(false);
                    }
                }
                None
            },
        }
    }
}

/// A string value equal to "Recordkeeping" or "GameOver".
pub open spec fn is_over_name(v: JsonValue) -> bool {
    v matches JsonValue::Str(s) && (s@ == "Recordkeeping"@ || s@ == "GameOver"@)
}

/// The event's `event` member marks the end of a game.
pub open spec fn game_over_marker(e: JsonValue) -> bool {
    e matches JsonValue::Obj(kvs) && exists|i: int|
        0 <= i < kvs@.len() && (#[trigger] kvs@[i]).0@ == "event"@ && is_over_name(kvs@[i].1)
}

/// Does this raw event mark the end of the game: is its `event` member
/// "Recordkeeping" or "GameOver"?
pub fn is_game_over_event(e: &JsonValue) -> (r: bool)
    requires
        wf(*e),
    ensures
        r == game_over_marker(*e),
{
    match e {
        JsonValue::Obj(kvs) => {
            let ghost gkvs = kvs@;
            let mut i: usize = 0;
            loop
                invariant
                    i <= gkvs.len(),
                    gkvs == kvs@,
                    distinct_keys(gkvs),
                    forall|k: int| 0 <= k < i ==> (#[trigger] gkvs[k]).0@ != "event"@,
                ensures
                    (i < gkvs.len() && gkvs[i as int].0@ == "event"@) || (i == gkvs.len()
                        && forall|k: int| 0 <= k < i ==> (#[trigger] gkvs[k]).0@ != "event"@),
                decreases gkvs.len() - i,
            {
                if i >= kvs.len() {
                    break;
                }
                if str_eq(kvs[i].0.as_str(), "event") {
                    break;
                }
                i = i + 1;
            }
            if i < kvs.len() {
                let r = match &kvs[i].1 {
                    JsonValue::Str(s) => {
                        str_eq(s.as_str(), "Recordkeeping") || str_eq(s.as_str(), "GameOver")
                    },
                    _ => false,
                };
                proof {
                    if r {
                        assert(gkvs[i as int].0@ == "event"@ && is_over_name(gkvs[i as int].1));
                    } else {
                        assert forall|k: int|
                            0 <= k < gkvs.len() implies !((#[trigger] gkvs[k]).0@ == "event"@
                            && is_over_name(gkvs[k].1)) by {
                            if gkvs[k].0@ == "event"@ && k != i {
                                assert(gkvs[k].0@ == gkvs[i as int].0@);
                            }
                        }
                    }
                }
                r
            } else {
                false
            }
        },
        _ => false,
    }
}

/// What one live delta fetch decides: the new event count, and whether a
/// game-over event was seen — in which case the game's state becomes
/// "Complete" and the whole record is re-polled for final stats.
pub fn apply_live_delta(event_count: i32, entries: &Vec<JsonValue>) -> (r: (i32, bool))
    requires
        event_count + entries@.len() <= i32::MAX,
        0 <= event_count,
        forall|i: int| 0 <= i < entries@.len() ==> wf(#[trigger] entries@[i]),
    ensures
        r.0 == event_count + entries@.len(),
        r.1 == exists|i: int|
            0 <= i < entries@.len() && game_over_marker(#[trigger] entries@[i]),
{
    let mut saw_over = false;
    let mut i: usize = 0;
    while i < entries.len()
        invariant
            i <= entries@.len(),
            forall|k: int| 0 <= k < entries@.len() ==> wf(#[trigger] entries@[k]),
            saw_over == exists|k: int|
                0 <= k < i && game_over_marker(#[trigger] entries@[k]),
        decreases entries@.len() - i,
    {
        if is_game_over_event(&entries[i]) {
            saw_over = true;
            proof {
                assert(game_over_marker(entries@[i as int]));
            }
        }
        i = i + 1;
    }
    (event_count + entries.len() as i32, saw_over)
}

/// The absolute indexes of a run of new events: `start`, `start + 1`, ...
/// one per entry, as the `(game_id, index)` upsert keys them.
pub fn event_indexes(start: i32, n: usize) -> (r: Vec<i32>)
    requires
        0 <= start,
        start + n <= i32::MAX,
    ensures
        r@.len() == n,
        forall|k: int| 0 <= k < n ==> #[trigger] r@[k] == start + k,
{
    let mut out: Vec<i32> = Vec::new();
    let mut k: usize = 0;
    while k < n
        invariant
            k <= n,
            start + n <= i32::MAX,
            0 <= start,
            out@.len() == k,
            forall|j: int| 0 <= j < k ==> #[trigger] out@[j] == start + j,
        decreases n - k,
    {
        out.push(start + (k as i32));
        k = k + 1;
    }
    out
}

/// The team whose pitcher an event names: the home team pitches in the
/// top of an inning, the away team in the bottom.
pub open spec fn pitching_team(
    evt: MmolbGameEvent,
    home: Option<MmolbTeam>,
    away: Option<MmolbTeam>,
) -> Option<MmolbTeam> {
    if evt.inning_side == 0 {
        home
    } else {
        away
    }
}

/// The team whose batter an event names: the other side.
pub open spec fn batting_team(
    evt: MmolbGameEvent,
    home: Option<MmolbTeam>,
    away: Option<MmolbTeam>,
) -> Option<MmolbTeam> {
    if evt.inning_side == 0 {
        away
    } else {
        home
    }
}

/// Resolve an event's pitcher and batter names to player ids against the
/// rosters current at the response instant. Each id is produced exactly
/// when the side's team is known, the event names that player, and the
/// roster match is unique; a missing team, a missing name, or an
/// ambiguous match each resolve to nothing.
pub fn enrich_event(evt: &MmolbGameEvent, home: &Option<MmolbTeam>, away: &Option<MmolbTeam>) -> (r:
    (Option<String>, Option<String>))
    ensures
        r.0 is Some <==> (pitching_team(*evt, *home, *away) matches Some(t) && evt.pitcher
            is Some && unique_slot_match(t, (evt.pitcher->0)@, "Pitcher"@)),
        r.1 is Some <==> (batting_team(*evt, *home, *away) matches Some(t) && evt.batter is Some
            && unique_slot_match(t, (evt.batter->0)@, "Batter"@)),
        r.0 matches Some(id) ==> (pitching_team(*evt, *home, *away) matches Some(t) && exists|
            i: int,
        |
            0 <= i < t.players@.len() && #[trigger] slot_matches(
                t.players@[i],
                (evt.pitcher->0)@,
                "Pitcher"@,
            ) && id@ == t.players@[i].player_id@),
        r.1 matches Some(id) ==> (batting_team(*evt, *home, *away) matches Some(t) && exists|
            i: int,
        |
            0 <= i < t.players@.len() && #[trigger] slot_matches(
                t.players@[i],
                (evt.batter->0)@,
                "Batter"@,
            ) && id@ == t.players@[i].player_id@),
{
    let (pitching, batting) = if evt.inning_side == 0 {
        (home, away)
    } else {
        (away, home)
    };
    proof {
        assert(*pitching == pitching_team(*evt, *home, *away));
        assert(*batting == batting_team(*evt, *home, *away));
    }
    let pitcher_id = match (pitching, &evt.pitcher) {
        (Some(t), Some(n)) => try_find_player_by_name(t, n.as_str(), "Pitcher"),
        _ => None,
    };
    let batter_id = match (batting, &evt.batter) {
        (Some(t), Some(n)) => try_find_player_by_name(t, n.as_str(), "Batter"),
        _ => None,
    };
    (pitcher_id, batter_id)
}

/// The name one event contributes to a side: the home side pitches the
/// top of an inning and bats the bottom, the away side the other way
/// round.
pub open spec fn event_side_names(e: MmolbGameEvent, home: bool) -> Seq<Seq<char>> {
    if e.inning_side == 0 {
        if home {
            opt_name(e.pitcher)
        } else {
            opt_name(e.batter)
        }
    } else if e.inning_side == 1 {
        if home {
            opt_name(e.batter)
        } else {
            opt_name(e.pitcher)
        }
    } else {
        Seq::empty()
    }
}

pub open spec fn opt_name(n: Option<String>) -> Seq<Seq<char>> {
    match n {
        Some(s) => seq![s@],
        None => Seq::empty(),
    }
}

/// The names one side's players went by across a game's events, in event
/// order.
pub open spec fn side_names(events: Seq<MmolbGameEvent>, home: bool) -> Seq<Seq<char>>
    decreases events.len(),
{
    if events.len() == 0 {
        Seq::empty()
    } else {
        side_names(events.drop_last(), home) + event_side_names(events.last(), home)
    }
}

/// Collect the names a side's players went by in this game: the first
/// step of resolving stat entries to names.
pub fn collect_event_names(events: &Vec<MmolbGameEvent>, home: bool) -> (r: Vec<String>)
    ensures
        r@.len() == side_names(events@, home).len(),
        forall|k: int| 0 <= k < r@.len() ==> (#[trigger] r@[k])@ == side_names(events@, home)[k],
{
    let mut out: Vec<String> = Vec::new();
    let mut i: usize = 0;
    proof {
        assert(events@.take(0) =~= Seq::<MmolbGameEvent>::empty());
    }
    while i < events.len()
        invariant
            i <= events@.len(),
            out@.len() == side_names(events@.take(i as int), home).len(),
            forall|k: int| 0 <= k < out@.len() ==> (#[trigger] out@[k])@ == side_names(
                events@.take(i as int),
                home,
            )[k],
        decreases events@.len() - i,
    {
        let e = &events[i];
        let ghost pre = side_names(events@.take(i as int), home);
        let picked: Option<&String> = if e.inning_side == 0 {
            if home {
                e.pitcher.as_ref()
            } else {
                e.batter.as_ref()
            }
        } else if e.inning_side == 1 {
            if home {
                e.batter.as_ref()
            } else {
                e.pitcher.as_ref()
            }
        } else {
            None
        };
        match picked {
            Some(n) => {
                out.push(clone_string(n));
            },
            None => (),
        }
        proof {
            let p = events@.take(i + 1);
            assert(p.drop_last() =~= events@.take(i as int));
            assert(p.last() == events@[i as int]);
            assert(side_names(p, home) == pre + event_side_names(events@[i as int], home));
            assert forall|k: int| 0 <= k < out@.len() implies (#[trigger] out@[k])@ == side_names(
                events@.take(i + 1),
                home,
            )[k] by {
                if k < pre.len() {
                    assert(side_names(events@.take(i + 1), home)[k] == pre[k]);
                }
            }
        }
        i = i + 1;
    }
    proof {
        assert(events@.take(events@.len() as int) =~= events@);
    }
    out
}

/// The game ids a run of day-document rows carries, rows without an id
/// skipped, in document order.
pub open spec fn day_ids(games: Seq<crate::models::DayGame>) -> Seq<Seq<char>>
    decreases games.len(),
{
    if games.len() == 0 {
        Seq::empty()
    } else {
        day_ids(games.drop_last()) + (match games.last().game_id {
            Some(s) => seq![s@],
            None => Seq::empty(),
        })
    }
}

/// Collect the game ids of a day document: what the day poller feeds the
/// per-game fetch with.
pub fn day_game_ids(day: &crate::models::MmolbDay) -> (r: Vec<String>)
    ensures
        r@.len() == day_ids(day.games@).len(),
        forall|k: int| 0 <= k < r@.len() ==> (#[trigger] r@[k])@ == day_ids(day.games@)[k],
{
    let mut out: Vec<String> = Vec::new();
    let mut i: usize = 0;
    proof {
        assert(day.games@.take(0) =~= Seq::<crate::models::DayGame>::empty());
    }
    while i < day.games.len()
        invariant
            i <= day.games@.len(),
            out@.len() == day_ids(day.games@.take(i as int)).len(),
            forall|k: int| 0 <= k < out@.len() ==> (#[trigger] out@[k])@ == day_ids(
                day.games@.take(i as int),
            )[k],
        decreases day.games@.len() - i,
    {
        let ghost prev = day_ids(day.games@.take(i as int));
        proof {
            assert(day.games@.take(i + 1).drop_last() =~= day.games@.take(i as int));
            assert(day.games@.take(i + 1).last() == day.games@[i as int]);
        }
        match &day.games[i].game_id {
            Some(id) => {
                out.push(clone_string(id));
            },
            None => (),
        }
        proof {
            let cur = day_ids(day.games@.take(i + 1));
            assert forall|k: int| 0 <= k < out@.len() implies (#[trigger] out@[k])@
                == cur[k] by {
                if k < prev.len() {
                    assert(cur[k] == prev[k]);
                }
            }
        }
        i = i + 1;
    }
    proof {
        assert(day.games@.take(day.games@.len() as int) =~= day.games@);
    }
    out
}

/// Is some listed name this one, by characters?
fn names_contain(names: &Vec<String>, n: &str) -> (r: bool)
    ensures
        r == exists|j: int| 0 <= j < names@.len() && (#[trigger] names@[j])@ == n@,
{
    let mut i: usize = 0;
    loop
        invariant
            i <= names@.len(),
            forall|k: int| 0 <= k < i ==> (#[trigger] names@[k])@ != n@,
        ensures
            (i < names@.len() && names@[i as int]@ == n@) || (i == names@.len() && forall|k: int|
                0 <= k < i ==> (#[trigger] names@[k])@ != n@),
        decreases names@.len() - i,
    {
        if i >= names.len() {
            break;
        }
        if str_eq(names[i].as_str(), n) {
            break;
        }
        i = i + 1;
    }
    i < names.len()
}

/// A name was seen among this game's events.
pub open spec fn name_seen(seen: Seq<String>, n: Seq<char>) -> bool {
    exists|j: int| 0 <= j < seen.len() && (#[trigger] seen[j])@ == n
}

/// The name-map fallback of game analysis. `entries` are `(name,
/// timestamp)` pairs, newest first. Pick the first name that was seen in
/// this game's events; failing that, the first mapped before the cutoff —
/// a quarter hour past the game's start; failing that, the first at all.
/// Nothing only if the map is empty.
pub fn pick_player_name(entries: &Vec<(String, i64)>, seen: &Vec<String>, cutoff: i64) -> (r:
    Option<String>)
    ensures
        r is None <==> entries@.len() == 0,
        (exists|i: int|
            0 <= i < entries@.len() && name_seen(seen@, (#[trigger] entries@[i]).0@)) ==> (r
            matches Some(n) && exists|i: int|
            0 <= i < entries@.len() && name_seen(seen@, (#[trigger] entries@[i]).0@) && n@
                == entries@[i].0@ && (forall|k: int|
                0 <= k < i ==> !name_seen(seen@, (#[trigger] entries@[k]).0@))),
        (forall|i: int|
            0 <= i < entries@.len() && !name_seen(seen@, (#[trigger] entries@[i]).0@)) && (
        exists|i: int|
            0 <= i < entries@.len() && (#[trigger] entries@[i]).1 < cutoff) ==> (r matches Some(n)
            && exists|i: int|
            0 <= i < entries@.len() && (#[trigger] entries@[i]).1 < cutoff && n@ == entries@[i].0@
                && (forall|k: int| 0 <= k < i ==> (#[trigger] entries@[k]).1 >= cutoff)),
        (forall|i: int|
            0 <= i < entries@.len() && !name_seen(seen@, (#[trigger] entries@[i]).0@)) && (
        forall|i: int|
            0 <= i < entries@.len() ==> (#[trigger] entries@[i]).1 >= cutoff) && entries@.len()
            > 0 ==> (r matches Some(n) && n@ == entries@[0].0@),
{
    let mut i: usize = 0;
    loop
        invariant
            i <= entries@.len(),
            forall|k: int| 0 <= k < i ==> !name_seen(seen@, (#[trigger] entries@[k]).0@),
        ensures
            (i < entries@.len() && name_seen(seen@, entries@[i as int].0@)) || (i
                == entries@.len() && forall|k: int|
                0 <= k < i ==> !name_seen(seen@, (#[trigger] entries@[k]).0@)),
        decreases entries@.len() - i,
    {
        if i >= entries.len() {
            break;
        }
        if names_contain(seen, entries[i].0.as_str()) {
            break;
        }
        i = i + 1;
    }
    if i < entries.len() {
        return Some(clone_string(&entries[i].0));
    }
    let mut j: usize = 0;
    loop
        invariant
            j <= entries@.len(),
            forall|k: int| 0 <= k < j ==> (#[trigger] entries@[k]).1 >= cutoff,
        ensures
            (j < entries@.len() && entries@[j as int].1 < cutoff) || (j == entries@.len()
                && forall|k: int| 0 <= k < j ==> (#[trigger] entries@[k]).1 >= cutoff),
        decreases entries@.len() - j,
    {
        if j >= entries.len() {
            break;
        }
        if entries[j].1 < cutoff {
            break;
        }
        j = j + 1;
    }
    if j < entries.len() {
        return Some(clone_string(&entries[j].0));
    }
    if entries.len() > 0 {
        Some(clone_string(&entries[0].0))
    } else {
        None
    }
}

} // verus!
