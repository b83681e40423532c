use magnetize::cid::Cid;
use magnetize::magnet::MagnetLink;
use magnetize::node::{
    content_digest, content_disposition, plan_gossip, Fetch, IntakeStep, NotifyIntake, NotifyJob,
    GOSSIP_FANOUT, MAX_JITTER_MS,
};
use magnetize::peers::PeerRegistry;
use magnetize::url::Url;

fn run_fetch(fetch: &mut Fetch, responses: &[(&str, Option<Vec<u8>>)], contacted: &mut Vec<String>) -> Option<Vec<u8>> {
    while let Some(u) = fetch.next_url() {
        contacted.push(u.as_str().to_string());
        let body = responses.iter().find(|(url, _)| *url == u.as_str()).and_then(|(_, b)| b.clone());
        if let Some(b) = fetch.on_response(body) {
            return Some(b);
        }
    }
    None
}

#[test]
fn fetcher_failover() {
    let good = b"the real blob".to_vec();
    let cid = Cid::of(&good);
    let mut link = MagnetLink::new(cid);
    link.ws = vec![
        Url::parse("https://u1.example/blob").unwrap(),
        Url::parse("https://u2.example/blob").unwrap(),
    ];
    let responses = [
        ("https://u1.example/blob", Some(b"something else".to_vec())),
        ("https://u2.example/blob", Some(good.clone())),
    ];
    let mut contacted = Vec::new();
    let mut fetch = Fetch::new(&link);
    assert_eq!(run_fetch(&mut fetch, &responses, &mut contacted), Some(good));
    assert_eq!(contacted, vec!["https://u1.example/blob", "https://u2.example/blob"]);
}

#[test]
fn fetcher_not_found() {
    let cid = Cid::of(b"wanted");
    let mut link = MagnetLink::new(cid);
    link.ws = vec![Url::parse("https://u1.example/a").unwrap()];
    link.cdn = vec![Url::parse("https://cdn.example/").unwrap()];
    let responses = [
        ("https://u1.example/a", Some(b"not it".to_vec())),
    ];
    let mut contacted = Vec::new();
    let mut fetch = Fetch::new(&link);
    assert_eq!(run_fetch(&mut fetch, &responses, &mut contacted), None);
    assert_eq!(contacted, vec![format!("https://cdn.example/{}", cid.to_string()), "https://u1.example/a".to_string()]);
}

#[test]
fn fetcher_stops_at_first_match() {
    let good = b"blob".to_vec();
    let cid = Cid::of(&good);
    let mut link = MagnetLink::new(cid);
    link.ws = vec![
        Url::parse("https://u1.example/").unwrap(),
        Url::parse("https://u2.example/").unwrap(),
    ];
    let responses = [
        ("https://u1.example/", Some(good.clone())),
        ("https://u2.example/", Some(good.clone())),
    ];
    let mut contacted = Vec::new();
    let mut fetch = Fetch::new(&link);
    assert_eq!(run_fetch(&mut fetch, &responses, &mut contacted), Some(good));
    assert_eq!(contacted, vec!["https://u1.example/"]);
}

fn registry() -> PeerRegistry {
    let mut reg = PeerRegistry::new();
    reg.set_allow(&Url::parse("https://peerA").unwrap());
    for p in ["https://peerB/", "https://peerC/", "https://peerD/"] {
        reg.add_notify(&Url::parse(p).unwrap());
    }
    reg
}

#[test]
fn notify_intake_trusted() {
    let blob = b"bytes served by peer A".to_vec();
    let cid = Cid::of(&blob);
    let cid_text = cid.to_string();
    let reg = registry();
    let public = Url::parse("https://N.public/").unwrap();

    let mut intake = NotifyIntake::start(Some("https://peerA/abc"), Some(&cid_text)).ok().unwrap();
    let url = match intake.on_exists(false, &reg, false) {
        IntakeStep::Fetch(u) => u,
        _ => panic!("expected a fetch"),
    };
    assert_eq!(url.as_str(), "https://peera/abc");
    let bytes = match intake.on_fetched(Some(blob.clone())) {
        IntakeStep::Store(b) => b,
        _ => panic!("expected a store"),
    };
    assert_eq!(bytes, blob);
    let (reply, job) = match intake.on_stored(true, &public) {
        IntakeStep::Created(r, j) => (r, j.unwrap()),
        _ => panic!("expected 201"),
    };
    assert_eq!(reply.status, 201);
    assert_eq!(reply.body, cid_text);
    assert_eq!(job.self_url.as_str(), format!("https://n.public/{}", cid_text));

    let plan = plan_gossip(&reg, &job);
    assert!(plan.delay_ms <= MAX_JITTER_MS);
    assert_eq!(plan.requests.len(), 3);
    for r in &plan.requests {
        assert!(reg.contains_notify(&r.peer));
        assert_eq!(r.target, r.peer.join("notify").unwrap());
        assert_eq!(r.ws, format!("https://n.public/{}", cid_text));
        assert_eq!(r.cid, cid_text);
    }
}

#[test]
fn notify_intake_untrusted_origin() {
    let cid = Cid::of(b"x");
    let reg = PeerRegistry::new();
    let mut intake = NotifyIntake::start(Some("https://stranger/abc"), Some(&cid.to_string())).ok().unwrap();
    match intake.on_exists(false, &reg, false) {
        IntakeStep::Reply(r) => {
            assert_eq!(r.status, 400);
            assert_eq!(r.body, "Untrusted origin");
        }
        _ => panic!("expected 400"),
    }
}

#[test]
fn notify_twice_is_idempotent() {
    let blob = b"once".to_vec();
    let cid = Cid::of(&blob);
    let reg = registry();
    let mut first = NotifyIntake::start(Some("https://peerA/once"), Some(&cid.to_string())).ok().unwrap();
    assert!(matches!(first.on_exists(false, &reg, false), IntakeStep::Fetch(_)));
    assert!(matches!(first.on_fetched(Some(blob)), IntakeStep::Store(_)));
    match first.on_stored(true, &Url::parse("https://n.public/").unwrap()) {
        IntakeStep::Created(r, _) => assert_eq!(r.status, 201),
        _ => panic!("expected 201"),
    }
    let mut second = NotifyIntake::start(Some("https://peerA/once"), Some(&cid.to_string())).ok().unwrap();
    match second.on_exists(true, &reg, false) {
        IntakeStep::Reply(r) => {
            assert_eq!(r.status, 200);
            assert_eq!(r.body, "Resource exists");
        }
        _ => panic!("expected 200"),
    }
}

#[test]
fn notify_bad_headers_and_bad_body() {
    assert_eq!(NotifyIntake::start(None, Some("b")).err().unwrap().status, 400);
    assert_eq!(NotifyIntake::start(Some("https://a/"), None).err().unwrap().status, 400);
    assert_eq!(NotifyIntake::start(Some("relative"), Some(&Cid::of(b"").to_string())).err().unwrap().status, 400);
    assert_eq!(NotifyIntake::start(Some("https://a/"), Some("nope")).err().unwrap().status, 400);
    let cid = Cid::of(b"expected");
    let mut intake = NotifyIntake::start(Some("https://a/"), Some(&cid.to_string())).ok().unwrap();
    assert!(matches!(intake.on_exists(false, &PeerRegistry::new(), true), IntakeStep::Fetch(_)));
    match intake.on_fetched(Some(b"other".to_vec())) {
        IntakeStep::Reply(r) => {
            assert_eq!(r.status, 400);
            assert!(r.body.contains(&cid.to_string()));
        }
        _ => panic!("expected 400"),
    }
}

#[test]
fn failed_write_is_500() {
    let blob = b"w".to_vec();
    let cid = Cid::of(&blob);
    let mut intake = NotifyIntake::start(Some("https://a/"), Some(&cid.to_string())).ok().unwrap();
    let _ = intake.on_exists(false, &PeerRegistry::new(), true);
    let _ = intake.on_fetched(Some(blob));
    match intake.on_stored(false, &Url::parse("https://n/").unwrap()) {
        IntakeStep::Reply(r) => assert_eq!(r.status, 500),
        _ => panic!("expected 500"),
    }
}

#[test]
fn gossip_fanout_is_bounded() {
    let mut reg = PeerRegistry::new();
    for i in 0..30 {
        reg.add_notify(&Url::parse(&format!("https://peer{}.example/", i)).unwrap());
    }
    let job = NotifyJob { cid: Cid::of(b"g"), self_url: Url::parse("https://n.public/x").unwrap() };
    let plan = plan_gossip(&reg, &job);
    assert_eq!(plan.requests.len(), GOSSIP_FANOUT);
    for (i, a) in plan.requests.iter().enumerate() {
        for b in &plan.requests[i + 1..] {
            assert_ne!(a.peer, b.peer);
        }
    }
    let empty = plan_gossip(&PeerRegistry::new(), &job);
    assert!(empty.requests.is_empty());
}

#[test]
fn blob_headers() {
    let cid = Cid::of(b"hello world");
    assert_eq!(
        content_digest(&cid),
        "cid=:bafkreifzjut3te2nhyekklss27nh3k72ysco7y32koao5eei66wof36n5e:"
    );
    assert_eq!(content_disposition(None), "attachment");
    assert_eq!(content_disposition(Some("a.txt")), "attachment; filename=\"a.txt\"");
}
