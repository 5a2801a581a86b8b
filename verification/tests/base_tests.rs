use chron::base::{normalize_location, objectid_to_timestamp};
use chron::feeds::{handle_feed, str_contains, FeedEntry, FeedLink, PlayerNameMapEntry};
use chron::hashing::HashingWriter;
use chron::models::{
    aggregate_player_stats, get_league_ids, EntityKind, MmolbState, SeasonDay, StatsInputRow,
};
use chron::queries::split_csv;

#[test]
fn locations_normalize_to_lower_nfkc() {
    assert_eq!(normalize_location("New York"), "new york");
    assert_eq!(normalize_location("Ｎｅｗ Ｙｏｒｋ"), "new york");
    assert_eq!(normalize_location(""), "");
}

#[test]
fn object_ids_carry_their_creation_seconds() {
    assert_eq!(objectid_to_timestamp("000000010000000000000000"), Some(1));
    assert_eq!(
        objectid_to_timestamp("6805db0fac48194de3cd42d1"),
        Some(0x6805db0f)
    );
    assert!(objectid_to_timestamp("too-short").is_none());
    assert!(objectid_to_timestamp("zz05db0fac48194de3cd42d1").is_none());
}

#[test]
fn kind_codes_round_trip() {
    let kinds = [
        EntityKind::State,
        EntityKind::Player,
        EntityKind::PlayerLite,
        EntityKind::TalkDefense,
        EntityKind::SuperstarGames,
    ];
    for k in kinds {
        assert_eq!(EntityKind::from_u16(k.as_u16()), Some(k));
    }
    assert!(EntityKind::from_u16(0).is_none());
    assert!(EntityKind::from_u16(999).is_none());
}

#[test]
fn league_ids_come_greater_first_then_lesser() {
    let state = MmolbState {
        greater_leagues: vec![String::from("g1"), String::from("g2")],
        lesser_leagues: vec![String::from("l1")],
    };
    let ids = get_league_ids(&state);
    assert_eq!(ids, vec![String::from("g1"), String::from("g2"), String::from("l1")]);
}

#[test]
fn the_hashing_writer_digests_the_whole_stream() {
    let mut w1 = HashingWriter::new();
    w1.write(b"hello ");
    w1.write(b"world");
    w1.flush();
    let mut w2 = HashingWriter::new();
    w2.write(b"hello world");
    assert_eq!(w1.finish128(), w2.finish128());
    let mut w3 = HashingWriter::new();
    w3.write(b"hello worlds");
    let mut w4 = HashingWriter::new();
    w4.write(b"hello world");
    assert_ne!(w3.finish128(), w4.finish128());
}

#[test]
fn substring_search_finds_inner_needles() {
    assert!(str_contains("a was Recomposed into b", " was Recomposed into "));
    assert!(!str_contains("a was recomposed into b", " was Recomposed into "));
    assert!(str_contains("abc", ""));
    assert!(!str_contains("ab", "abc"));
}

fn link(kind: Option<&str>, id: Option<&str>, matched: Option<&str>) -> FeedLink {
    FeedLink {
        kind: kind.map(String::from),
        id: id.map(String::from),
        matched: matched.map(String::from),
    }
}

#[test]
fn feeds_yield_name_rows_for_player_links() {
    let feed = vec![FeedEntry {
        ts: 42,
        text: String::from("Ada hit a home run"),
        links: vec![
            link(Some("team"), Some("t1"), Some("Team")),
            link(Some("player"), Some("p1"), Some("Ada Lovelace")),
        ],
    }];
    let mut out: Vec<PlayerNameMapEntry> = Vec::new();
    handle_feed(&mut out, &feed);
    assert_eq!(out.len(), 1);
    assert_eq!(out[0].timestamp, 42);
    assert_eq!(out[0].player_id, "p1");
    assert_eq!(out[0].player_name, "Ada Lovelace");
}

#[test]
fn a_recomposition_charges_the_first_linked_player() {
    let feed = vec![FeedEntry {
        ts: 7,
        text: String::from("Ada was Recomposed into Grace"),
        links: vec![
            link(Some("player"), Some("p-old"), Some("Ada")),
            link(Some("player"), Some("p-new"), Some("Grace")),
        ],
    }];
    let mut out: Vec<PlayerNameMapEntry> = Vec::new();
    handle_feed(&mut out, &feed);
    assert_eq!(out.len(), 2);
    assert_eq!(out[0].player_id, "p-old");
    assert_eq!(out[0].player_name, "Ada");
    assert_eq!(out[1].player_id, "p-old");
    assert_eq!(out[1].player_name, "Grace");
}

#[test]
fn season_day_fields_parse_exactly() {
    assert_eq!(SeasonDay::from_str("3,12"), Some(SeasonDay::new(3, 12)));
    assert_eq!(SeasonDay::from_str("-1,0"), Some(SeasonDay::new(-1, 0)));
    assert_eq!(SeasonDay::from_str("2147483647,0"), Some(SeasonDay::new(i32::MAX, 0)));
    assert!(SeasonDay::from_str("2147483648,0").is_none());
    assert!(SeasonDay::from_str("3").is_none());
    assert!(SeasonDay::from_str("3,").is_none());
    assert!(SeasonDay::from_str("a,b").is_none());
    assert!(SeasonDay::from_str(",1").is_none());
}

fn stat_row(team: &str, player: &str, stats: Vec<(&str, i64)>) -> StatsInputRow {
    StatsInputRow {
        team_id: String::from(team),
        player_id: String::from(player),
        stats: stats.into_iter().map(|(k, v)| (String::from(k), v)).collect(),
    }
}

#[test]
fn player_stats_group_by_team_and_player_and_sum() {
    let rows = vec![
        stat_row("t1", "p1", vec![("hits", 2), ("runs", 1)]),
        stat_row("t1", "p2", vec![("hits", 1)]),
        stat_row("t1", "p1", vec![("hits", 3), ("walks", 4)]),
        stat_row("t2", "p1", vec![("hits", 9)]),
    ];
    let agg = aggregate_player_stats(&rows);
    assert_eq!(agg.len(), 3);
    assert_eq!(agg[0].team_id, "t1");
    assert_eq!(agg[0].player_id, "p1");
    assert_eq!(
        agg[0].stats,
        vec![
            (String::from("hits"), 5),
            (String::from("runs"), 1),
            (String::from("walks"), 4),
        ]
    );
    assert_eq!(agg[1].player_id, "p2");
    assert_eq!(agg[1].stats, vec![(String::from("hits"), 1)]);
    assert_eq!(agg[2].team_id, "t2");
    assert_eq!(agg[2].stats, vec![(String::from("hits"), 9)]);
}

#[test]
fn player_stats_sums_saturate_at_the_32_bit_bounds() {
    let rows = vec![
        stat_row("t", "p", vec![("big", i32::MAX as i64), ("big", 10)]),
        stat_row("t", "p", vec![("low", i32::MIN as i64), ("low", -10)]),
    ];
    let agg = aggregate_player_stats(&rows);
    assert_eq!(agg[0].stats[0], (String::from("big"), i32::MAX));
    assert_eq!(agg[0].stats[1], (String::from("low"), i32::MIN));
}

#[test]
fn id_lists_split_on_every_comma() {
    assert_eq!(split_csv("a,b,c"), vec!["a", "b", "c"]);
    assert_eq!(split_csv("one"), vec!["one"]);
    assert_eq!(split_csv(""), vec![""]);
    assert_eq!(split_csv("a,,b"), vec!["a", "", "b"]);
    assert_eq!(split_csv(","), vec!["", ""]);
}
