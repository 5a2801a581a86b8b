use chron::json::JsonValue;
use chron::models::EntityKind;
use chron::synthetic::{derive_from, derive_from_player, derive_from_team, obj_remove, obj_take};

fn obj(entries: Vec<(&str, JsonValue)>) -> JsonValue {
    JsonValue::Obj(
        entries.into_iter().map(|(k, v)| (String::from(k), v)).collect(),
    )
}

fn keys_of(v: &JsonValue) -> Vec<String> {
    match v {
        JsonValue::Obj(kvs) => kvs.iter().map(|kv| kv.0.clone()).collect(),
        _ => panic!("not an object"),
    }
}

fn player_doc() -> JsonValue {
    obj(vec![
        ("FirstName", JsonValue::Str(String::from("Ada"))),
        ("Stats", obj(vec![("hits", JsonValue::Num(String::from("3")))])),
        ("Feed", JsonValue::Arr(vec![])),
        ("Talk", obj(vec![
            ("Batting", obj(vec![("q", JsonValue::Num(String::from("1")))])),
            ("Defense", obj(vec![("q", JsonValue::Num(String::from("2")))])),
        ])),
    ])
}

#[test]
fn the_player_lite_projection_strips_stats_and_feed() {
    let derived = derive_from_player("p1", &player_doc());
    assert_eq!(derived[0].kind, EntityKind::PlayerLite);
    assert_eq!(derived[0].entity_id, "p1");
    let keys = keys_of(&derived[0].data);
    assert_eq!(keys, vec![String::from("FirstName"), String::from("Talk")]);
}

#[test]
fn the_talk_subtree_and_its_axes_become_entities() {
    let derived = derive_from_player("p1", &player_doc());
    assert_eq!(derived.len(), 4);
    assert_eq!(derived[1].kind, EntityKind::Talk);
    assert_eq!(derived[2].kind, EntityKind::TalkBatting);
    assert_eq!(derived[3].kind, EntityKind::TalkDefense);
    for d in &derived {
        assert_eq!(d.entity_id, "p1");
    }
}

#[test]
fn a_player_without_talk_derives_only_the_lite_projection() {
    let doc = obj(vec![("FirstName", JsonValue::Str(String::from("Ada")))]);
    let derived = derive_from_player("p1", &doc);
    assert_eq!(derived.len(), 1);
}

#[test]
fn the_team_lite_projection_strips_feed_and_player_stats() {
    let doc = obj(vec![
        ("Name", JsonValue::Str(String::from("T"))),
        ("Feed", JsonValue::Arr(vec![])),
        ("Players", JsonValue::Arr(vec![
            obj(vec![
                ("PlayerID", JsonValue::Str(String::from("p1"))),
                ("Stats", obj(vec![])),
            ]),
            obj(vec![("PlayerID", JsonValue::Str(String::from("p2")))]),
        ])),
    ]);
    let derived = derive_from_team("t1", &doc);
    assert_eq!(derived.len(), 1);
    assert_eq!(derived[0].kind, EntityKind::TeamLite);
    let keys = keys_of(&derived[0].data);
    assert_eq!(keys, vec![String::from("Name"), String::from("Players")]);
    match &derived[0].data {
        JsonValue::Obj(kvs) => match &kvs[1].1 {
            JsonValue::Arr(players) => {
                assert_eq!(keys_of(&players[0]), vec![String::from("PlayerID")]);
                assert_eq!(keys_of(&players[1]), vec![String::from("PlayerID")]);
            },
            _ => panic!("players is not an array"),
        },
        _ => panic!("team lite is not an object"),
    }
}

#[test]
fn only_players_and_teams_derive_anything() {
    let doc = obj(vec![("x", JsonValue::Null)]);
    assert!(derive_from(EntityKind::Game, "g", &doc).is_empty());
    assert!(derive_from(EntityKind::State, "s", &doc).is_empty());
    assert_eq!(derive_from(EntityKind::Player, "p", &doc).len(), 1);
    assert_eq!(derive_from(EntityKind::Team, "t", &doc).len(), 1);
}

#[test]
fn removing_a_key_keeps_the_rest_in_order() {
    let v = obj(vec![
        ("a", JsonValue::Null),
        ("b", JsonValue::Bool(true)),
        ("c", JsonValue::Null),
    ]);
    let r = obj_remove(v, "b");
    assert_eq!(keys_of(&r), vec![String::from("a"), String::from("c")]);
}

#[test]
fn taking_a_member_copies_its_value() {
    let v = obj(vec![("k", JsonValue::Num(String::from("5")))]);
    let taken = obj_take(&v, "k").unwrap();
    match taken {
        JsonValue::Num(s) => assert_eq!(s, "5"),
        _ => panic!("wrong member taken"),
    }
    assert!(obj_take(&v, "missing").is_none());
}
