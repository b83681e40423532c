use magnetize::peers::{should_allow_peer, OriginStatus, PeerRegistry};
use magnetize::url::Url;
use magnetize::util::write_urls_to_lines;

#[test]
fn test_write_urls_to_lines() {
    let mut output = Vec::new();
    let peers = vec![
        Url::parse("http://example.com").unwrap(),
        Url::parse("https://test.org").unwrap(),
    ];

    write_urls_to_lines(&peers, &mut output).unwrap();

    let result = String::from_utf8(output).unwrap();
    assert_eq!(result, "http://example.com/\nhttps://test.org/\n");
}

#[test]
fn test_should_allow_peer() {
    let peer = Url::parse("https://example.com/resource").unwrap();
    let peer2 = Url::parse("https://allowed.com/resource").unwrap();
    let peer3 = Url::parse("https://denied.com/resource").unwrap();

    let allow = vec![Url::parse("https://allowed.com").unwrap().origin()];

    let deny = vec![Url::parse("https://denied.com").unwrap().origin()];

    assert!(
        should_allow_peer(&peer, &allow, &deny, true),
        "When allow_all is true, non-denied peer should be notified"
    );

    assert!(
        should_allow_peer(&peer2, &allow, &deny, true),
        "When allow_all is true, allowed peer should be notified"
    );

    assert!(
        !should_allow_peer(&peer3, &allow, &deny, true),
        "When allow_all is true, denied peer should not be notified"
    );

    assert!(
        !should_allow_peer(&peer, &allow, &deny, false),
        "When allow_all is false, non-allowed peer should not be notified"
    );

    assert!(
        should_allow_peer(&peer2, &allow, &deny, false),
        "When allow_all is false, allowed peer should be notified"
    );

    assert!(
        !should_allow_peer(&peer3, &allow, &deny, false),
        "When allow_all is false, denied peer should not be notified"
    );
}

#[test]
fn deny_overrides_allow_all() {
    let mut reg = PeerRegistry::new();
    let u = Url::parse("https://peer.example/abc").unwrap();
    reg.set_deny(&u);
    assert_eq!(reg.status(&u), OriginStatus::Deny);
    assert!(!reg.is_trusted(&u, true));
    assert!(!reg.is_trusted(&u, false));
}

#[test]
fn origin_policy_is_keyed_by_origin() {
    let mut reg = PeerRegistry::new();
    reg.set_allow(&Url::parse("https://peerA/").unwrap());
    let other_path = Url::parse("https://peerA:443/abc?x=1").unwrap();
    assert_eq!(reg.status(&other_path), OriginStatus::Allow);
    assert!(reg.is_trusted(&other_path, false));
    let other_port = Url::parse("https://peerA:8443/abc").unwrap();
    assert_eq!(reg.status(&other_port), OriginStatus::Unknown);
    assert!(!reg.is_trusted(&other_port, false));
    assert!(reg.is_trusted(&other_port, true));
}

#[test]
fn last_policy_wins_and_clear_forgets() {
    let mut reg = PeerRegistry::new();
    let u = Url::parse("https://example.com/page").unwrap();
    reg.set_allow(&u);
    reg.set_deny(&u);
    assert_eq!(reg.status(&u), OriginStatus::Deny);
    reg.set_allow(&u);
    assert_eq!(reg.status(&u), OriginStatus::Allow);
    reg.clear_origin(&u);
    assert_eq!(reg.status(&u), OriginStatus::Unknown);
}

#[test]
fn notify_peers_add_remove() {
    let mut reg = PeerRegistry::new();
    let a = Url::parse("https://a.example/").unwrap();
    let b = Url::parse("https://b.example/").unwrap();
    reg.add_notify(&a);
    reg.add_notify(&a);
    reg.add_notify(&b);
    assert!(reg.contains_notify(&a));
    assert_eq!(reg.sample_notify(10).len(), 2);
    reg.remove_notify(&a);
    assert!(!reg.contains_notify(&a));
    assert!(reg.contains_notify(&b));
    assert_eq!(reg.sample_notify(10), vec![b]);
}

#[test]
fn sample_is_distinct_and_bounded() {
    let mut reg = PeerRegistry::new();
    for i in 0..20 {
        reg.add_notify(&Url::parse(&format!("https://p{}.example/", i)).unwrap());
    }
    let s = reg.sample_notify(5);
    assert_eq!(s.len(), 5);
    for (i, x) in s.iter().enumerate() {
        assert!(reg.contains_notify(x));
        for y in &s[i + 1..] {
            assert_ne!(x, y);
        }
    }
    assert!(PeerRegistry::new().sample_notify(3).is_empty());
}
