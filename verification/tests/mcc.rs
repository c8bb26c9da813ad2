use rinha::mcc::{McCRiskTable, MCC_DEFAULT_RISK};

fn risk(hundredths: u8) -> f32 {
    f32::from(hundredths) / 100.0
}

#[test]
fn known_mcc_returns_value() {
    let t = McCRiskTable::default();
    assert!((risk(t.lookup(b"5411")) - 0.15).abs() < 1e-6);
    assert!((risk(t.lookup(b"7995")) - 0.85).abs() < 1e-6);
}

#[test]
fn unknown_mcc_returns_default() {
    let t = McCRiskTable::default();
    assert!((risk(t.lookup(b"9999")) - 0.5).abs() < 1e-6);
}

#[test]
fn first_matching_entry_wins() {
    let t = McCRiskTable::new(vec![(b"1".to_vec(), 10), (b"1".to_vec(), 20), (b"".to_vec(), 30)]);
    assert_eq!(t.lookup(b"1"), 10);
    assert_eq!(t.lookup(b""), 30);
    assert_eq!(t.lookup(b"11"), MCC_DEFAULT_RISK);
}
