use rinha::responses::{format_score, ResponseTable};

#[test]
fn builds_all_12_buckets() {
    let t = ResponseTable::new();
    for bucket in 0..6 {
        for approved in [false, true] {
            let body = t.fraud_body(bucket, approved);
            assert!(body.starts_with(b"{\"approved\":"));
            assert!(body.ends_with(b"}"));
        }
    }
}

#[test]
fn bodies_print_one_decimal() {
    let t = ResponseTable::new();
    assert_eq!(&t.fraud_body(0, true)[..], &b"{\"approved\":true,\"fraud_score\":0.0}"[..]);
    assert_eq!(&t.fraud_body(2, true)[..], &b"{\"approved\":true,\"fraud_score\":0.4}"[..]);
    assert_eq!(&t.fraud_body(5, false)[..], &b"{\"approved\":false,\"fraud_score\":1.0}"[..]);
    assert_eq!(&t.fallback_body()[..], &b"{\"approved\":true,\"fraud_score\":0.0}"[..]);
    assert_eq!(format_score(8), "0.8");
    assert_eq!(format_score(7), "0.0");
}
