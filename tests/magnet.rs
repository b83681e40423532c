use magnetize::cid::Cid;
use magnetize::magnet::{Error, LinkError, MagnetLink};
use magnetize::url::Url;
use magnetize::url::{into_btmh_urn_str, parse_btmh_urn_str};

const CID: &str = "bafkreiayssqzzbn2cu5mx52dvrheh7aajsermbfsn6ggtypih2rk7r6er4";

#[test]
fn test_parse_valid_magnet_link() {
    let magnet_link = "magnet:?cid=bafkreiayssqzzbn2cu5mx52dvrheh7aajsermbfsn6ggtypih2rk7r6er4&ws=https://example.com/file.txt&xt=urn:btmh:d41d8cd98f00b204e9800998ecf8427e&dn=example_file";
    let result = MagnetLink::parse(magnet_link).unwrap();

    assert_eq!(
        result.cid.to_string(),
        "bafkreiayssqzzbn2cu5mx52dvrheh7aajsermbfsn6ggtypih2rk7r6er4"
    );
    assert_eq!(
        result.ws,
        vec![Url::parse("https://example.com/file.txt").unwrap()]
    );
    assert_eq!(
        parse_btmh_urn_str(result.xt.as_ref().unwrap()).ok(),
        Some("d41d8cd98f00b204e9800998ecf8427e".to_string())
    );
    assert_eq!(result.dn, Some("example_file".to_string()));
}

#[test]
fn test_parse_minimal_magnet_link() {
    let magnet_link = "magnet:?cid=bafkreiayssqzzbn2cu5mx52dvrheh7aajsermbfsn6ggtypih2rk7r6er4";
    let result = MagnetLink::parse(magnet_link).unwrap();

    assert_eq!(
        result.cid.to_string(),
        "bafkreiayssqzzbn2cu5mx52dvrheh7aajsermbfsn6ggtypih2rk7r6er4"
    );
    assert!(result.ws.is_empty());
    assert!(result.cdn.is_empty());
    assert_eq!(result.xt, None);
    assert_eq!(result.dn, None);
    assert_eq!(result.cid, Cid::parse(CID).unwrap());
    let text = result.to_string();
    assert!(text.starts_with("magnet:?"));
    assert!(text.contains("cid=bafkreiayssqzzbn2cu5mx52dvrheh7aajsermbfsn6ggtypih2rk7r6er4"));
}

#[test]
fn test_parse_multiple_ws() {
    let magnet_link = "magnet:?cid=bafkreiayssqzzbn2cu5mx52dvrheh7aajsermbfsn6ggtypih2rk7r6er4&ws=https://example1.com/file.txt&ws=https://example2.com/file.txt";
    let result = MagnetLink::parse(magnet_link).unwrap();

    assert_eq!(result.ws.len(), 2);
    assert_eq!(
        result.ws[0],
        Url::parse("https://example1.com/file.txt").unwrap()
    );
    assert_eq!(
        result.ws[1],
        Url::parse("https://example2.com/file.txt").unwrap()
    );
    assert_eq!(result.urls(), result.ws);
}

#[test]
fn test_parse_missing_cid() {
    let magnet_link = "magnet:?ws=https://example.com/file.txt";
    let result = MagnetLink::parse(magnet_link);

    assert!(result.is_err());
    assert!(matches!(result, Err(Error::MissingCid)));
}

#[test]
fn test_parse_invalid_url() {
    let invalid_url = "not-a-magnet-link";
    let result = MagnetLink::parse(invalid_url);

    assert!(matches!(result, Err(Error::UrlParseError(_))));
}

#[test]
fn test_to_string() {
    let magnet_link = MagnetLink {
        cid: Cid::parse("bafkreiayssqzzbn2cu5mx52dvrheh7aajsermbfsn6ggtypih2rk7r6er4").unwrap(),
        cdn: Vec::new(),
        ws: vec![Url::parse("https://example.com/file.txt").unwrap()],
        xt: Some(into_btmh_urn_str("d41d8cd98f00b204e9800998ecf8427e")),
        dn: Some("example_file".to_string()),
    };

    let url_string = magnet_link.to_string();
    assert!(url_string.starts_with("magnet:?"), "Starts with magnet:?");

    let parsed = MagnetLink::parse(&url_string).unwrap();
    assert_eq!(parsed, magnet_link);
}

#[test]
fn test_to_string_minimal() {
    let magnet_link = MagnetLink {
        cid: Cid::parse("bafkreiayssqzzbn2cu5mx52dvrheh7aajsermbfsn6ggtypih2rk7r6er4").unwrap(),
        cdn: Vec::new(),
        ws: vec![],
        xt: None,
        dn: None,
    };

    let url_string = magnet_link.to_string();

    assert!(url_string.contains(
        "?cid=bafkreiayssqzzbn2cu5mx52dvrheh7aajsermbfsn6ggtypih2rk7r6er4"
    ));
    assert!(!url_string.contains("ws="), "Does not contain ws=");
    assert!(!url_string.contains("dn="), "Does not contain dn=");

    let parsed = MagnetLink::parse(&url_string).unwrap();
    assert_eq!(parsed.cid, magnet_link.cid);
    assert!(parsed.ws.is_empty());
}

#[test]
fn test_urls_method() {
    let cid_str = "bafkreiayssqzzbn2cu5mx52dvrheh7aajsermbfsn6ggtypih2rk7r6er4";
    let magnet_link = MagnetLink {
        cid: Cid::parse(cid_str).unwrap(),
        cdn: vec![
            Url::parse("https://cdn1.example.com/").unwrap(),
            Url::parse("https://cdn2.example.com/junk/at-the/end").unwrap(),
        ],
        ws: vec![
            Url::parse("https://direct1.example.com/file.txt").unwrap(),
            Url::parse("https://direct2.example.com/another-file.txt").unwrap(),
        ],
        xt: None,
        dn: None,
    };

    let urls = magnet_link.urls();

    assert_eq!(urls.len(), 4);
    assert_eq!(
        urls[0],
        Url::parse(&format!("https://cdn1.example.com/{}", cid_str)).unwrap()
    );
    assert_eq!(
        urls[1],
        Url::parse(&format!("https://cdn2.example.com/junk/at-the/{}", cid_str)).unwrap()
    );
    assert_eq!(urls[2], Url::parse("https://direct1.example.com/file.txt").unwrap());
    assert_eq!(
        urls[3],
        Url::parse("https://direct2.example.com/another-file.txt").unwrap()
    );
}

#[test]
fn full_link_round_trip() {
    let link = MagnetLink {
        cid: Cid::of(b"full link"),
        cdn: vec![Url::parse("https://cdn.example/base/").unwrap()],
        ws: vec![
            Url::parse("https://a.example/x?y=1&z=2").unwrap(),
            Url::parse("https://b.example/x").unwrap(),
        ],
        xt: Some("urn:btih:c12fe1c06bba254a9dc9f519b335aa7c1367a88a".to_string()),
        dn: Some("a name with spaces & symbols = é".to_string()),
    };
    let text = link.to_string();
    assert!(text.starts_with("magnet:?cid="));
    assert!(!text.contains(' '));
    assert_eq!(MagnetLink::parse(&text).unwrap(), link);
}

#[test]
fn serialization_order_and_encoding() {
    let link = MagnetLink {
        cid: Cid::parse(CID).unwrap(),
        cdn: vec![Url::parse("https://cdn.example/").unwrap()],
        ws: vec![Url::parse("https://a.example/x").unwrap()],
        xt: Some("t".to_string()),
        dn: Some("a b".to_string()),
    };
    assert_eq!(
        link.to_string(),
        format!(
            "magnet:?cid={}&xt=t&dn=a+b&cdn=https%3A%2F%2Fcdn.example%2F&ws=https%3A%2F%2Fa.example%2Fx",
            CID
        )
    );
}

#[test]
fn candidates_put_cdn_before_ws() {
    let text = format!(
        "magnet:?cid={}&ws=https://a.example/x&cdn=https://cdn.example/&unknown=1",
        CID
    );
    let link = MagnetLink::parse(&text).unwrap();
    let urls = link.urls();
    assert_eq!(urls.len(), 2);
    assert_eq!(urls[0].as_str(), format!("https://cdn.example/{}", CID));
    assert_eq!(urls[1].as_str(), "https://a.example/x");
}

#[test]
fn bad_urls_are_dropped() {
    let text = format!("magnet:?cid={}&ws=not%20a%20url&ws=https://ok.example/", CID);
    let link = MagnetLink::parse(&text).unwrap();
    assert_eq!(link.ws, vec![Url::parse("https://ok.example/").unwrap()]);
}

#[test]
fn first_cid_decides() {
    let text = format!("magnet:?cid=nonsense&cid={}", CID);
    assert!(matches!(MagnetLink::parse(&text), Err(Error::InvalidCid(_))));
    let text = format!("magnet:?cid={}&cid=nonsense&dn=one&dn=two", CID);
    let link = MagnetLink::parse(&text).unwrap();
    assert_eq!(link.dn, Some("one".to_string()));
}

#[test]
fn new_link_has_only_a_cid() {
    let cid = Cid::parse(CID).unwrap();
    let link = MagnetLink::new(cid);
    assert_eq!(link.cid, cid);
    assert!(link.ws.is_empty() && link.cdn.is_empty() && link.xt.is_none() && link.dn.is_none());
    assert_eq!(link.to_string(), format!("magnet:?cid={}", CID));
}

#[test]
fn links_compare_field_by_field() {
    let a = MagnetLink::parse(&format!("magnet:?cid={}&ws=https://a.example/&ws=https://b.example/", CID)).unwrap();
    let b = MagnetLink::parse(&a.to_string()).unwrap();
    assert!(a.same_as(&b));
    let c = MagnetLink::parse(&format!("magnet:?cid={}&ws=https://b.example/&ws=https://a.example/", CID)).unwrap();
    assert!(!a.same_as(&c));
    let mut d = b.clone();
    d.dn = Some("x".to_string());
    assert!(!a.same_as(&d));
}

#[test]
fn link_from_web_seeds() {
    let a = Url::parse("https://a.example/x").unwrap();
    let b = Url::parse("https://b.example/x").unwrap();
    let body = b"same content".to_vec();
    let link = MagnetLink::from_web_seeds(vec![a.clone(), b.clone()], &vec![Some(body.clone()), None]).unwrap();
    assert_eq!(link.cid, Cid::of(&body));
    assert_eq!(link.ws, vec![a.clone(), b.clone()]);
    let err = MagnetLink::from_web_seeds(vec![a.clone(), b.clone()], &vec![Some(body), Some(b"other".to_vec())]);
    assert!(matches!(err, Err(LinkError::Mismatch)));
    let err = MagnetLink::from_web_seeds(vec![a, b], &vec![None, None]);
    assert!(matches!(err, Err(LinkError::Unreachable)));
}
