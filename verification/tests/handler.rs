use rinha::dataset::{Dataset, LABEL_FRAUD, LABEL_LEGIT};
use rinha::handler::{connection_step, handle_fraud_score, vector_token_spans, Step};
use rinha::http::{ResponseTable, Route};
use rinha::preprocess::{encode_dataset, to_soa};
use rinha::proto::DIM;

/// Reads the vector the way the service does: each number scaled by 8192.
fn read_vector(body: &[u8]) -> Option<[i16; DIM]> {
    let spans = vector_token_spans(body)?;
    let mut out = [0_i16; DIM];
    for (slot, span) in out.iter_mut().zip(spans) {
        let v: f32 = std::str::from_utf8(&body[span]).ok()?.parse().ok()?;
        *slot = (v * 8192.0).round().clamp(f32::from(i16::MIN), f32::from(i16::MAX)) as i16;
    }
    Some(out)
}

#[test]
fn parses_well_formed_vector() {
    let body = br#"{"vector":[0.5,0.5,0.5,0.5,0.5,0.5,0.5,0.5,0.5,0.5,0.5,0.5,0.5,0.5]}"#;
    let v = read_vector(body).unwrap();
    assert_eq!(v, [4096_i16; 14]);
}

#[test]
fn rejects_short_vector() {
    let body = br#"{"vector":[0.5,0.5]}"#;
    assert!(read_vector(body).is_none());
}

#[test]
fn token_spans_trim_and_check_count() {
    let body = b"{\"vector\":[ 1 ,2,3,4,5,6,7,8,9,10,11,12,13,\t14 ]}";
    let spans = vector_token_spans(body).unwrap();
    assert_eq!(spans.len(), 14);
    assert_eq!(&body[spans[0].clone()], b"1");
    assert_eq!(&body[spans[13].clone()], b"14");
    assert!(vector_token_spans(b"{\"vector\":[1,,3]}").is_none());
    assert!(vector_token_spans(b"[1,2,3,4,5,6,7,8,9,10,11,12,13,14,15]").is_none());
    assert!(vector_token_spans(b"no brackets").is_none());
    assert!(vector_token_spans(b"[1,2").is_none());
    assert!(vector_token_spans(b"[]").is_none());
}

#[test]
fn steps_of_a_connection() {
    let t = ResponseTable::new();
    let raw = b"GET /ready HTTP/1.1\r\nHost: x\r\n\r\nGET /re";
    match connection_step(raw, &t) {
        Step::Serve { route, body, consumed } => {
            assert_eq!(route, Route::Ready);
            assert!(body.is_empty());
            assert_eq!(consumed, raw.len() - 7);
            assert!(matches!(connection_step(&raw[consumed..], &t), Step::ReadMore));
        }
        _ => panic!("expected a request"),
    }
    match connection_step(b"GET /x HTTP/1.1\r\nHost: y\r\n\r\n", &t) {
        Step::Reject(b) => assert!(b.starts_with(b"HTTP/1.1 404")),
        _ => panic!("expected 404"),
    }
    match connection_step(b"GET\r\nHost: y\r\n\r\n", &t) {
        Step::Reject(b) => assert!(b.starts_with(b"HTTP/1.1 400")),
        _ => panic!("expected 400"),
    }
    let huge = b"POST /fraud-score HTTP/1.1\r\nContent-Length: 18446744073709551615\r\n\r\n";
    assert!(matches!(connection_step(huge, &t), Step::Abort));
}

#[test]
fn scoring_answers() {
    let points: Vec<[i16; DIM]> = (0..6).map(|i| [i * 10; DIM]).collect();
    let labels = [LABEL_FRAUD, LABEL_FRAUD, LABEL_FRAUD, LABEL_LEGIT, LABEL_LEGIT, LABEL_FRAUD];
    let ds = Dataset::from_bytes(&encode_dataset(&labels, &to_soa(&points))).unwrap();
    let t = ResponseTable::new();
    // Nearest five of the origin: rows 0..5, three frauds: 0.6, denied.
    let r = handle_fraud_score(Some([0; DIM]), &ds, &t);
    assert!(r.ends_with(b"{\"approved\":false,\"fraud_score\":0.6}"));
    // Nearest five of 50: rows 1..6, three frauds as well.
    let r = handle_fraud_score(Some([50; DIM]), &ds, &t);
    assert!(r.ends_with(b"{\"approved\":false,\"fraud_score\":0.6}"));
    let r = handle_fraud_score(None, &ds, &t);
    assert!(r.starts_with(b"HTTP/1.1 400"));
    // Coordinates beyond 1.0 once scaled are scored like any other: the
    // nearest five of 9000 are rows 1..6 (frauds 1, 2 and 5).
    let r = handle_fraud_score(Some([9000; DIM]), &ds, &t);
    assert!(r.ends_with(b"{\"approved\":false,\"fraud_score\":0.6}"));
    // The extremes of the i16 range do not overflow the distance sum.
    let r = handle_fraud_score(Some([i16::MAX; DIM]), &ds, &t);
    assert!(r.ends_with(b"{\"approved\":false,\"fraud_score\":0.6}"));
    let r = handle_fraud_score(Some([i16::MIN; DIM]), &ds, &t);
    assert!(r.ends_with(b"{\"approved\":false,\"fraud_score\":0.6}"));
    let legit = Dataset::from_bytes(&encode_dataset(&[LABEL_LEGIT; 6], &to_soa(&points))).unwrap();
    let r = handle_fraud_score(Some([0; DIM]), &legit, &t);
    assert!(r.ends_with(b"{\"approved\":true,\"fraud_score\":0}"));
}
