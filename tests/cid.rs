use magnetize::cid::{Cid, CidErrorKind, CID_VERSION, MULTICODEC_RAW, MULTIHASH_SHA256};

#[test]
fn test_cid_to_bytes_constructs_a_valid_cid() {
    let bytes = b"test data";
    let cid = Cid::of(bytes).to_bytes();

    assert_eq!(cid[0], CID_VERSION);
    assert_eq!(cid[1], MULTICODEC_RAW);
    assert_eq!(cid[2], MULTIHASH_SHA256);
    assert_eq!(cid[3], 32);
    assert_eq!(cid.len(), 36);
}

#[test]
fn test_cid_to_string_constructs_a_valid_cid() {
    let text = "hello world";
    let cid = Cid::of(text.as_bytes());

    let expected_cid = "bafkreifzjut3te2nhyekklss27nh3k72ysco7y32koao5eei66wof36n5e";
    assert_eq!(cid.to_string(), expected_cid);
}

#[test]
fn test_different_inputs_yield_different_cids() {
    let cid1 = Cid::of("data1".as_bytes());
    let cid2 = Cid::of("data2".as_bytes());

    assert_ne!(cid1.0, cid2.0);
    assert_ne!(cid1.to_string(), cid2.to_string());
}

#[test]
fn test_identical_inputs_yield_same_cids() {
    let cid1 = Cid::of("same data".as_bytes());
    let cid2 = Cid::of("same data".as_bytes());

    assert_eq!(cid1.0, cid2.0);
    assert_eq!(cid1.to_string(), cid2.to_string());
}

#[test]
fn hello_world_binary_form() {
    let cid = Cid::of(b"hello world");
    let expected: Vec<u8> = vec![
        0x01, 0x55, 0x12, 0x20, 0xb9, 0x4d, 0x27, 0xb9, 0x93, 0x4d, 0x3e, 0x08, 0xa5, 0x2e, 0x52,
        0xd7, 0xda, 0x7d, 0xab, 0xfa, 0xc4, 0x84, 0xef, 0xe3, 0x7a, 0x53, 0x80, 0xee, 0x90, 0x88,
        0xf7, 0xac, 0xe2, 0xef, 0xcd, 0xe9,
    ];
    assert_eq!(cid.to_bytes(), expected);
}

#[test]
fn text_round_trip() {
    let cid = Cid::of(b"round trip");
    let text = cid.to_string();
    assert_eq!(text.len(), 59);
    assert!(text.starts_with('b'));
    assert!(text.chars().skip(1).all(|c| c.is_ascii_lowercase() || ('2'..='7').contains(&c)));
    assert_eq!(Cid::parse(&text).unwrap(), cid);
}

#[test]
fn upper_case_text_parses() {
    let cid = Cid::of(b"hello world");
    let upper = format!("b{}", cid.to_string()[1..].to_uppercase());
    assert_eq!(Cid::parse(&upper).unwrap(), cid);
}

#[test]
fn bytes_round_trip() {
    let cid = Cid::of(b"bytes");
    assert_eq!(Cid::parse_bytes(cid.to_bytes()).unwrap(), cid);
}

#[test]
fn empty_input_has_a_cid() {
    let cid = Cid::of(b"");
    assert_eq!(Cid::parse(&cid.to_string()).unwrap(), cid);
}

#[test]
fn wrong_length_is_refused() {
    let err = Cid::parse_bytes(vec![0x01, 0x55, 0x12, 0x20]).unwrap_err();
    assert_eq!(err.kind, CidErrorKind::WrongLength);
}

#[test]
fn wrong_prefix_is_refused() {
    let mut bytes = Cid::of(b"x").to_bytes();
    bytes[1] = 0x70;
    let err = Cid::parse_bytes(bytes).unwrap_err();
    assert_eq!(err.kind, CidErrorKind::WrongPrefix);
}

#[test]
fn bad_base32_is_refused() {
    let err = Cid::parse("b0189!").unwrap_err();
    assert_eq!(err.kind, CidErrorKind::BadBase32);
}

#[test]
fn missing_multibase_is_refused() {
    let err = Cid::parse("zafkreifzjut3te2nhyekklss27nh3k72ysco7y32koao5eei66wof36n5e").unwrap_err();
    assert_eq!(err.kind, CidErrorKind::MissingMultibase);
    assert_eq!(Cid::parse("").unwrap_err().kind, CidErrorKind::MissingMultibase);
}

#[test]
fn text_of_wrong_length_is_refused() {
    let err = Cid::parse("bafkreifzjut3te2nhyekklss27nh3k72ysco7y32koao5eei66wof36n5").unwrap_err();
    assert!(err.kind == CidErrorKind::BadBase32 || err.kind == CidErrorKind::WrongLength);
    let short = Cid::parse("baebag").unwrap_err();
    assert_eq!(short.kind, CidErrorKind::WrongLength);
}
