use base64::Engine;
use chron::token::{token_round_trip, PageToken};

#[test]
fn a_token_survives_the_trip_through_its_text() {
    let t = PageToken {
        entity_id: String::from("6805db0fac48194de3cd42d1"),
        timestamp: 1_699_999_123_456,
    };
    let back = token_round_trip(&t).unwrap();
    assert_eq!(back.timestamp, t.timestamp);
    assert_eq!(back.entity_id, t.entity_id);
}

#[test]
fn a_negative_timestamp_round_trips_too() {
    let t = PageToken {
        entity_id: String::from("an-entity-id"),
        timestamp: -42,
    };
    let text = t.to_text();
    let back = PageToken::from_text(text.as_str()).unwrap();
    assert_eq!(back.timestamp, -42);
    assert_eq!(back.entity_id, "an-entity-id");
}

#[test]
fn the_text_is_base64_of_timestamp_then_id() {
    let t = PageToken {
        entity_id: String::from("abcdefghijklmnop"),
        timestamp: 1,
    };
    let text = t.to_text();
    let raw = base64::engine::general_purpose::URL_SAFE
        .decode(text.as_bytes())
        .unwrap();
    assert_eq!(&raw[0..8], &[0, 0, 0, 0, 0, 0, 0, 1]);
    assert_eq!(&raw[8..], b"abcdefghijklmnop");
}

#[test]
fn garbage_and_short_tokens_decode_to_nothing() {
    assert!(PageToken::from_text("!!!not base64!!!").is_none());
    let short = base64::engine::general_purpose::URL_SAFE.encode(b"0123456789abcdef");
    assert!(PageToken::from_text(short.as_str()).is_none());
}
