use rinha::normalize::{known_contains, minutes_since_last};
use rinha::payload::parse_timestamps;
use rinha::time::DateTime;

#[test]
fn parses_with_last_transaction() {
    let body = br#"{
        "id": "x",
        "transaction": { "amount": 10, "installments": 1, "requested_at": "2026-03-11T18:00:00Z" },
        "customer": { "avg_amount": 100, "tx_count_24h": 1, "known_merchants": [] },
        "merchant": { "id": "M", "mcc": "5411", "avg_amount": 50 },
        "terminal": { "is_online": true, "card_present": false, "km_from_home": 5.0 },
        "last_transaction": { "timestamp": "2026-03-11T17:00:00Z", "km_from_current": 1.5 }
    }"#;
    let v: serde_json::Value = serde_json::from_slice(body).unwrap();
    let requested_at = v["transaction"]["requested_at"].as_str().unwrap();
    let last = &v["last_transaction"];
    let (_, last_ts) = parse_timestamps(
        requested_at.as_bytes(),
        Some(last["timestamp"].as_str().unwrap().as_bytes()),
    )
    .unwrap();
    let last_ts = last_ts.unwrap();
    assert_eq!(last_ts.hour, 17);
    assert!((last["km_from_current"].as_f64().unwrap() as f32 - 1.5).abs() < 1e-6);
}

#[test]
fn timestamps_must_both_parse() {
    assert!(parse_timestamps(b"2026-03-11T18:00:00Z", None).unwrap().1.is_none());
    assert!(parse_timestamps(b"2026-03-11 18:00:00Z", None).is_none());
    assert!(parse_timestamps(b"2026-03-11T18:00:00Z", Some(b"bad")).is_none());
}

#[test]
fn known_merchants_and_elapsed_minutes() {
    let known: [&[u8]; 2] = [b"MERC-003", b"MERC-016"];
    assert!(known_contains(&known, b"MERC-016"));
    assert!(!known_contains(&known, b"MERC-01"));
    assert!(!known_contains(&[], b"MERC-016"));
    let now = DateTime::parse(b"2026-03-11T18:45:53Z").unwrap();
    let before = DateTime::parse(b"2026-03-10T18:45:53Z").unwrap();
    assert_eq!(minutes_since_last(now, before), 1440);
    assert_eq!(minutes_since_last(before, now), 0);
}
