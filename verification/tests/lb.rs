use rinha::lb::{next_upstream, Upstream};

#[test]
fn upstream_addresses() {
    assert!(matches!(Upstream::parse("unix:/sockets/api1.sock"), Upstream::Uds(p) if p == "/sockets/api1.sock"));
    assert!(matches!(Upstream::parse("tcp:127.0.0.1:8080"), Upstream::Tcp(a) if a == "127.0.0.1:8080"));
    assert!(matches!(Upstream::parse("/plain/path.sock"), Upstream::Uds(p) if p == "/plain/path.sock"));
    assert!(matches!(Upstream::parse(""), Upstream::Uds(p) if p.is_empty()));
}

#[test]
fn round_robin_takes_turns() {
    let mut counter = 0;
    let mut seen = Vec::new();
    for _ in 0..5 {
        let (idx, next) = next_upstream(counter, 2);
        seen.push(idx);
        counter = next;
    }
    assert_eq!(seen, [0, 1, 0, 1, 0]);
    assert_eq!(next_upstream(usize::MAX, 3), (usize::MAX % 3, 0));
}
