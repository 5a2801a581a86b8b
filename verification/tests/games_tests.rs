use chron::games::{
    apply_live_delta, collect_event_names, enrich_event, event_indexes, is_game_over_event,
    pick_player_name, try_find_player_by_name,
};
use chron::json::JsonValue;
use chron::games::day_game_ids;
use chron::models::{DayGame, MmolbDay, MmolbGameEvent, MmolbTeam, MmolbTeamPlayer};

fn slot(id: &str, first: &str, last: &str, pos: Option<&str>) -> MmolbTeamPlayer {
    MmolbTeamPlayer {
        player_id: String::from(id),
        first_name: String::from(first),
        last_name: String::from(last),
        position_type: pos.map(String::from),
    }
}

fn team(players: Vec<MmolbTeamPlayer>) -> MmolbTeam {
    MmolbTeam {
        name: String::from("T"),
        league: None,
        location: String::from("L"),
        full_location: String::from("L"),
        color: String::from("fff"),
        emoji: String::from("e"),
        abbreviation: String::from("T"),
        players,
    }
}

fn event_obj(name: &str) -> JsonValue {
    JsonValue::Obj(vec![
        (String::from("event"), JsonValue::Str(String::from(name))),
        (String::from("index"), JsonValue::Num(String::from("0"))),
    ])
}

#[test]
fn a_unique_roster_match_resolves_to_its_id() {
    let t = team(vec![
        slot("id1", "Ada", "Lovelace", Some("Pitcher")),
        slot("id2", "Alan", "Turing", Some("Batter")),
    ]);
    let r = try_find_player_by_name(&t, "Ada Lovelace", "Pitcher");
    assert_eq!(r, Some(String::from("id1")));
    assert!(try_find_player_by_name(&t, "Ada Lovelace", "Batter").is_none());
    assert!(try_find_player_by_name(&t, "Grace Hopper", "Pitcher").is_none());
}

#[test]
fn an_ambiguous_name_resolves_to_nothing() {
    let t = team(vec![
        slot("id1", "Ada", "Lovelace", Some("Pitcher")),
        slot("id2", "Ada", "Lovelace", Some("Pitcher")),
    ]);
    assert!(try_find_player_by_name(&t, "Ada Lovelace", "Pitcher").is_none());
}

#[test]
fn game_over_markers_are_recognized() {
    assert!(is_game_over_event(&event_obj("Recordkeeping")));
    assert!(is_game_over_event(&event_obj("GameOver")));
    assert!(!is_game_over_event(&event_obj("Pitch")));
    assert!(!is_game_over_event(&JsonValue::Null));
}

#[test]
fn a_live_delta_without_game_over_extends_the_count() {
    let entries = vec![event_obj("Pitch"), event_obj("Hit"), event_obj("Walk")];
    let (count, over) = apply_live_delta(5, &entries);
    assert_eq!(count, 8);
    assert!(!over);
    let idx = event_indexes(5, entries.len());
    assert_eq!(idx, vec![5, 6, 7]);
}

#[test]
fn a_recordkeeping_entry_completes_the_game() {
    let entries = vec![event_obj("Recordkeeping")];
    let (count, over) = apply_live_delta(8, &entries);
    assert_eq!(count, 9);
    assert!(over);
}

#[test]
fn enrichment_reads_the_pitching_side_from_the_inning() {
    let home = Some(team(vec![slot("hp", "Home", "Pitcher", Some("Pitcher"))]));
    let away = Some(team(vec![slot("ab", "Away", "Batter", Some("Batter"))]));
    let evt = MmolbGameEvent {
        event: String::from("Pitch"),
        pitcher: Some(String::from("Home Pitcher")),
        batter: Some(String::from("Away Batter")),
        inning: 1,
        inning_side: 0,
    };
    let (p, b) = enrich_event(&evt, &home, &away);
    assert_eq!(p, Some(String::from("hp")));
    assert_eq!(b, Some(String::from("ab")));
    let evt_flipped = MmolbGameEvent { inning_side: 1, ..evt };
    let (p2, b2) = enrich_event(&evt_flipped, &home, &away);
    assert!(p2.is_none());
    assert!(b2.is_none());
}

#[test]
fn the_name_fallback_prefers_names_seen_in_this_game() {
    let entries = vec![
        (String::from("New Name"), 900_i64),
        (String::from("Seen Name"), 500_i64),
        (String::from("Old Name"), 100_i64),
    ];
    let seen = vec![String::from("Seen Name")];
    assert_eq!(
        pick_player_name(&entries, &seen, 300),
        Some(String::from("Seen Name"))
    );
    let unseen: Vec<String> = vec![];
    assert_eq!(
        pick_player_name(&entries, &unseen, 300),
        Some(String::from("Old Name"))
    );
    assert_eq!(
        pick_player_name(&entries, &unseen, 50),
        Some(String::from("New Name"))
    );
    assert!(pick_player_name(&vec![], &unseen, 50).is_none());
}

#[test]
fn event_names_are_charged_to_the_right_side() {
    let events = vec![
        MmolbGameEvent {
            event: String::from("Pitch"),
            pitcher: Some(String::from("Home P")),
            batter: Some(String::from("Away B")),
            inning: 1,
            inning_side: 0,
        },
        MmolbGameEvent {
            event: String::from("Pitch"),
            pitcher: Some(String::from("Away P")),
            batter: Some(String::from("Home B")),
            inning: 1,
            inning_side: 1,
        },
    ];
    let home = collect_event_names(&events, true);
    let away = collect_event_names(&events, false);
    assert_eq!(home, vec![String::from("Home P"), String::from("Home B")]);
    assert_eq!(away, vec![String::from("Away B"), String::from("Away P")]);
}

#[test]
fn day_documents_yield_their_game_ids() {
    let day = MmolbDay {
        games: vec![
            DayGame { game_id: Some(String::from("g1")) },
            DayGame { game_id: None },
            DayGame { game_id: Some(String::from("g2")) },
        ],
    };
    assert_eq!(day_game_ids(&day), vec![String::from("g1"), String::from("g2")]);
    assert!(day_game_ids(&MmolbDay { games: vec![] }).is_empty());
}
