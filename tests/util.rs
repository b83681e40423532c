use magnetize::util::random_choice;
use magnetize::url::{cid_of_urn, into_btmh_urn_str, parse_btmh_urn_str, parse_cid_urn_str, urn_of_cid, Error};
use magnetize::cid::Cid;
use magnetize::util::{group, write_if_small};

#[test]
fn test_group_empty() {
    let pairs: Vec<(i32, String)> = Vec::new();
    let result = group(pairs);
    assert!(result.is_empty());
}

#[test]
fn test_group_single_pair() {
    let pairs = vec![(1, "a".to_string())];
    let result = group(pairs);

    assert_eq!(result.len(), 1);
    assert_eq!(result.get(&1), Some(&vec!["a".to_string()]));
}

#[test]
fn test_group_multiple_pairs_with_same_key() {
    let pairs = vec![
        (1, "a".to_string()),
        (1, "b".to_string()),
        (1, "c".to_string()),
    ];

    let result = group(pairs);

    assert_eq!(result.len(), 1);
    assert_eq!(
        result.get(&1),
        Some(&vec!["a".to_string(), "b".to_string(), "c".to_string()])
    );
}

#[test]
fn test_group_multiple_keys() {
    let pairs = vec![
        (1, "a".to_string()),
        (2, "b".to_string()),
        (3, "c".to_string()),
        (1, "d".to_string()),
    ];

    let result = group(pairs);

    assert_eq!(result.len(), 3);
    assert_eq!(
        result.get(&1),
        Some(&vec!["a".to_string(), "d".to_string()])
    );
    assert_eq!(result.get(&2), Some(&vec!["b".to_string()]));
    assert_eq!(result.get(&3), Some(&vec!["c".to_string()]));
}

#[test]
fn test_random_choice() {
    let items = vec![
        "http://example1.com",
        "http://example2.com",
        "http://example3.com",
        "http://example4.com",
        "http://example5.com",
    ];

    let selected = random_choice(items.to_owned(), 3);

    assert_eq!(selected.len(), 3);
    for item in &selected {
        assert!(items.contains(item));
    }
}

#[test]
fn test_random_choice_with_max_greater_than_available() {
    let items = vec!["http://example1.com", "http://example2.com"];

    let selected = random_choice(items, 5);

    assert_eq!(selected.len(), 2);
}

#[test]
fn test_random_choice_empty() {
    let items: Vec<String> = vec![];

    let selected = random_choice(items, 3);

    assert!(selected.is_empty());
}

#[test]
fn test_write_if_small_within_limit() {
    let mut buffer = Vec::new();
    let data = [1, 2, 3, 4, 5];
    let result = write_if_small(&mut buffer, &data, 10);

    assert!(result.is_ok());
    assert_eq!(buffer, vec![1, 2, 3, 4, 5]);
}

#[test]
fn test_write_if_small_exact_limit() {
    let mut buffer = Vec::new();
    let data = [1, 2, 3, 4, 5];
    let result = write_if_small(&mut buffer, &data, 5);

    assert!(result.is_ok());
    assert_eq!(buffer, vec![1, 2, 3, 4, 5]);
}

#[test]
fn test_write_if_small_exceeds_limit() {
    let mut buffer = Vec::new();
    let data = [1, 2, 3, 4, 5];
    let result = write_if_small(&mut buffer, &data, 4);

    assert!(result.is_err());
    assert_eq!(buffer.len(), 0);
}

#[test]
fn test_parse_cid_urn_str() {
    let valid_urn = "urn:cid:bafkreifzjut3te2nhyekklss27nh3k72ysco7y32koao5eei66wof36n5e";
    let cid = parse_cid_urn_str(valid_urn).unwrap();
    assert_eq!(
        cid,
        Cid::parse("bafkreifzjut3te2nhyekklss27nh3k72ysco7y32koao5eei66wof36n5e").unwrap()
    );

    let invalid_urn = "noturn:cid:bafkreifzjut3te2nhyekklss27nh3k72ysco7y32koao5eei66wof36n5e";
    let result = parse_cid_urn_str(invalid_urn);
    assert!(result.is_err());
    match result {
        Err(Error::Value(msg)) => assert!(msg.contains("Not a urn:cid")),
        _ => panic!("Expected Value error"),
    }

    let invalid_cid = "urn:cid:invalidcid";
    let result = parse_cid_urn_str(invalid_cid);
    assert!(result.is_err());
}

#[test]
fn btmh_urn_round_trip() {
    let urn = into_btmh_urn_str("d41d8cd98f00b204e9800998ecf8427e");
    assert_eq!(urn, "urn:btmh:d41d8cd98f00b204e9800998ecf8427e");
    assert_eq!(parse_btmh_urn_str(&urn).unwrap(), "d41d8cd98f00b204e9800998ecf8427e");
    assert!(parse_btmh_urn_str("urn:cid:x").is_err());
}

#[test]
fn cid_urn_round_trip() {
    let cid = Cid::of(b"urn");
    let urn = urn_of_cid(&cid).unwrap();
    assert_eq!(urn.as_str(), format!("urn:cid:{}", cid.to_string()));
    assert_eq!(cid_of_urn(&urn).unwrap(), cid);
}
