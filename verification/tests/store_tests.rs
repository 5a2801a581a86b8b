use chron::json::JsonValue;
use chron::store::{Chronicle, NewObject};
use chron::versions::{add_version, rebuild_entity, Version};

fn doc(tag: &str) -> JsonValue {
    JsonValue::Obj(vec![
        (String::from("kind"), JsonValue::Str(String::from(tag))),
        (String::from("n"), JsonValue::Num(String::from("1"))),
    ])
}

fn save(c: &mut Chronicle, id: &str, ts: i64, tag: &str) {
    c.save(NewObject {
        kind: 4,
        entity_id: String::from(id),
        data: doc(tag),
        timestamp: ts,
        request_time: 0,
    });
}

#[test]
fn two_identical_polls_collapse_to_one_version() {
    let mut c = Chronicle::new();
    save(&mut c, "p1", 100, "a");
    save(&mut c, "p1", 200, "a");
    let timeline = c.rebuild(4, &String::from("p1"));
    assert_eq!(timeline.len(), 1);
    assert_eq!(timeline[0].valid_from, 100);
    assert!(timeline[0].valid_to.is_none());
}

#[test]
fn change_and_back_makes_three_versions() {
    let mut c = Chronicle::new();
    save(&mut c, "p1", 100, "a");
    save(&mut c, "p1", 200, "b");
    save(&mut c, "p1", 300, "a");
    let timeline = c.rebuild(4, &String::from("p1"));
    assert_eq!(timeline.len(), 3);
    assert_eq!(timeline[0].valid_from, 100);
    assert_eq!(timeline[0].valid_to, Some(200));
    assert_eq!(timeline[1].valid_from, 200);
    assert_eq!(timeline[1].valid_to, Some(300));
    assert_eq!(timeline[2].valid_from, 300);
    assert!(timeline[2].valid_to.is_none());
    assert_eq!(timeline[0].hash, timeline[2].hash);
    assert_ne!(timeline[0].hash, timeline[1].hash);
}

#[test]
fn point_in_time_lookup_picks_the_covering_version() {
    let mut c = Chronicle::new();
    save(&mut c, "p1", 100, "a");
    save(&mut c, "p1", 200, "b");
    save(&mut c, "p1", 300, "a");
    let timeline = c.rebuild(4, &String::from("p1"));
    let h1 = timeline[0].hash;
    let h2 = timeline[1].hash;
    let at = |t: i64| chron::queries::get_entity_at(&timeline, t);
    assert_eq!(at(150).unwrap().hash, h1);
    assert_eq!(at(250).unwrap().hash, h2);
    assert_eq!(at(300).unwrap().hash, h1);
    assert!(at(50).is_none());
}

#[test]
fn incremental_and_rebuild_agree() {
    let obs: Vec<(i64, u128)> = vec![(10, 7), (20, 7), (30, 9), (40, 9), (50, 7)];
    let rebuilt = rebuild_entity(&obs);
    let mut incremental: Vec<Version> = Vec::new();
    for (ts, h) in &obs {
        add_version(&mut incremental, *ts, *h);
    }
    assert_eq!(rebuilt.len(), incremental.len());
    for k in 0..rebuilt.len() {
        assert_eq!(rebuilt[k].valid_from, incremental[k].valid_from);
        assert_eq!(rebuilt[k].valid_to, incremental[k].valid_to);
        assert_eq!(rebuilt[k].hash, incremental[k].hash);
    }
    assert_eq!(rebuilt.len(), 3);
    assert_eq!(rebuilt[0].valid_to, Some(30));
    assert_eq!(rebuilt[1].valid_to, Some(50));
    assert!(rebuilt[2].valid_to.is_none());
}

#[test]
fn repeated_hash_is_a_no_op_for_the_open_version() {
    let mut timeline: Vec<Version> = Vec::new();
    add_version(&mut timeline, 100, 42);
    add_version(&mut timeline, 200, 42);
    assert_eq!(timeline.len(), 1);
    assert_eq!(timeline[0].valid_from, 100);
    add_version(&mut timeline, 300, 43);
    assert_eq!(timeline.len(), 2);
    assert_eq!(timeline[0].valid_to, Some(300));
}

#[test]
fn distinct_entity_ids_are_collected_once() {
    let mut c = Chronicle::new();
    save(&mut c, "p1", 100, "a");
    save(&mut c, "p2", 110, "a");
    save(&mut c, "p1", 120, "b");
    let ids = c.get_all_entity_ids(4);
    assert_eq!(ids.len(), 2);
    assert!(ids.contains(&String::from("p1")));
    assert!(ids.contains(&String::from("p2")));
    assert!(c.get_all_entity_ids(3).is_empty());
}

#[test]
fn a_bulk_save_appends_one_observation_per_document() {
    let mut c = Chronicle::new();
    let batch = vec![
        NewObject {
            kind: 4,
            entity_id: String::from("p1"),
            data: doc("a"),
            timestamp: 100,
            request_time: 1,
        },
        NewObject {
            kind: 4,
            entity_id: String::from("p1"),
            data: doc("b"),
            timestamp: 200,
            request_time: 2,
        },
        NewObject {
            kind: 3,
            entity_id: String::from("t1"),
            data: doc("a"),
            timestamp: 300,
            request_time: 3,
        },
    ];
    c.save_raw_bulk(batch);
    let timeline = c.rebuild(4, &String::from("p1"));
    assert_eq!(timeline.len(), 2);
    assert_eq!(c.rebuild(3, &String::from("t1")).len(), 1);
}

#[test]
fn duplicate_objects_are_stored_once_and_found_again() {
    let mut c = Chronicle::new();
    let h1 = c.save_object(doc("a"));
    let h2 = c.save_object(doc("a"));
    let h3 = c.save_object(doc("b"));
    assert_eq!(h1, h2);
    assert_ne!(h1, h3);
    assert!(c.get_object(h1).is_some());
    assert!(c.get_object(h3).is_some());
    let absent = h1.wrapping_add(1);
    if absent != h3 {
        assert!(c.get_object(absent).is_none());
    }
}
