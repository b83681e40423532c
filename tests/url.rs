use magnetize::cid::Cid;
use magnetize::rasl::{into_rasl_url, RaslLink};
use magnetize::url::Url;

#[test]
fn join_resolves_against_the_base() {
    let base = Url::parse("https://cdn.example/a/b").unwrap();
    assert_eq!(base.join("c").unwrap().as_str(), "https://cdn.example/a/c");
    assert_eq!(base.join("/d").unwrap().as_str(), "https://cdn.example/d");
}

#[test]
fn origin_normalizes_default_port() {
    let a = Url::parse("https://Example.com:443/x").unwrap().origin();
    let b = Url::parse("https://example.com/y").unwrap().origin();
    assert!(a.same_as(&b));
    assert_eq!(a.ascii_serialization(), "https://example.com");
    let c = Url::parse("https://example.com:8443/").unwrap().origin();
    assert!(!a.same_as(&c));
    let opaque = Url::parse("magnet:?x").unwrap().origin();
    assert!(!opaque.is_tuple());
    assert!(!opaque.same_as(&opaque));
}

#[test]
fn relative_text_is_not_a_url() {
    assert!(Url::parse("example.com").is_err());
    assert_eq!(Url::parse("http://example.com").unwrap().as_str(), "http://example.com/");
}

#[test]
fn test_rasl_link_to_string() {
    let cid =
        Cid::parse("bafkreiayssqzzbn2cu5mx52dvrheh7aajsermbfsn6ggtypih2rk7r6er4").unwrap();
    let rs = vec![
        Url::parse("https://example.com").unwrap(),
        Url::parse("https://user@test.org/extra/junk").unwrap(),
    ];

    let rasl_link = RaslLink { cid, rs };

    let string: String = rasl_link.to_string().unwrap();

    assert_eq!(
        string,
        "web+rasl://bafkreiayssqzzbn2cu5mx52dvrheh7aajsermbfsn6ggtypih2rk7r6er4%3Bexample.com,user@test.org/"
    );
}

#[test]
fn rasl_seeds_become_cdn_bases() {
    let cid = Cid::of(b"rasl");
    let mut link = RaslLink::new(cid);
    link.rs = vec![Url::parse("https://user@host.example:8080/junk").unwrap()];
    let magnet = link.into_magnet();
    assert_eq!(magnet.cdn, vec![Url::parse("https://user@host.example:8080/.well-known/rasl/").unwrap()]);
    assert_eq!(
        magnet.urls()[0].as_str(),
        format!("https://user@host.example:8080/.well-known/rasl/{}", cid.to_string())
    );
    assert!(into_rasl_url(&Url::parse("file:///tmp/x").unwrap()).is_err());
}

#[test]
fn rasl_parse_refuses_non_links() {
    let text = "web+rasl://bafkreiayssqzzbn2cu5mx52dvrheh7aajsermbfsn6ggtypih2rk7r6er4%3Bexample.com/";
    assert!(RaslLink::parse(text).is_err());
    assert!(RaslLink::parse("not a url").is_err());
}
