use swhid::{Content, ObjectType, Swhid, SwhidComputer, SwhidError};

#[test]
fn test_content_swhid_conformance() {
    // Test that content SWHID matches expected format
    let data = b"Hello, World!";
    let content = Content::from_data(data.to_vec());
    let swhid = content.swhid();

    assert_eq!(swhid.object_type(), ObjectType::Content);
    assert_eq!(swhid.hash().len(), 20);

    // Verify SWHID format
    let swhid_str = swhid.to_string();
    assert!(swhid_str.starts_with("swh:1:cnt:"));
    assert_eq!(swhid_str.len(), 50); // swh:1:cnt: + 40 hex chars
}

#[test]
fn test_swhid_parsing() {
    // Test valid SWHID parsing
    let valid_swhid = "swh:1:cnt:0000000000000000000000000000000000000000";
    let parsed = Swhid::from_string(valid_swhid).unwrap();
    assert_eq!(parsed.object_type(), ObjectType::Content);

    // Test invalid SWHID parsing
    assert!(Swhid::from_string("invalid").is_err());
    assert!(Swhid::from_string("swh:2:cnt:0000000000000000000000000000000000000000").is_err());
    assert!(Swhid::from_string("swh:1:invalid:0000000000000000000000000000000000000000").is_err());
}

#[test]
fn test_parse_render_roundtrip_strings() {
    let samples = [
        "swh:1:cnt:b45ef6fec89518d314f546fd6c3025367b721684",
        "swh:1:dir:4b825dc642cb6eb9a060e54bf8d69288fbee4904",
        "swh:1:rev:0123456789abcdef0123456789abcdef01234567",
        "swh:1:rel:fedcba9876543210fedcba9876543210fedcba98",
        "swh:1:snp:00000000000000000000000000000000000000ff",
    ];
    for s in samples {
        let id = Swhid::from_string(s).unwrap();
        assert_eq!(id.to_string(), s);
    }
}

#[test]
fn test_render_parse_roundtrip_identifiers() {
    let mut digest = [0u8; 20];
    let mut i: usize = 0;
    while i < 20 {
        digest[i] = (i * 7 + 3) as u8;
        i += 1;
    }
    for t in [
        ObjectType::Content,
        ObjectType::Directory,
        ObjectType::Revision,
        ObjectType::Release,
        ObjectType::Snapshot,
    ] {
        let id = Swhid::new(t, digest);
        let back = Swhid::from_string(&id.to_string()).unwrap();
        assert!(back == id);
    }
}

#[test]
fn test_parse_error_variants() {
    assert!(matches!(
        Swhid::from_string("no colons here"),
        Err(SwhidError::InvalidFormat(_))
    ));
    assert!(matches!(
        Swhid::from_string("swh:1:cnt:00:00"),
        Err(SwhidError::InvalidFormat(_))
    ));
    assert!(matches!(
        Swhid::from_string("foo:1:cnt:0000000000000000000000000000000000000000"),
        Err(SwhidError::InvalidNamespace(_))
    ));
    assert!(matches!(
        Swhid::from_string("swh:2:cnt:0000000000000000000000000000000000000000"),
        Err(SwhidError::InvalidVersion(_))
    ));
    assert!(matches!(
        Swhid::from_string("swh:1:xxx:0000000000000000000000000000000000000000"),
        Err(SwhidError::InvalidObjectType(_))
    ));
    assert!(matches!(
        Swhid::from_string("swh:1:cnt:000000000000000000000000000000000000000"),
        Err(SwhidError::InvalidHashLength(39))
    ));
    assert!(matches!(
        Swhid::from_string("swh:1:cnt:000000000000000000000000000000000000000Z"),
        Err(SwhidError::InvalidHash(_))
    ));
    // uppercase hex is rejected: parsing is strict
    assert!(matches!(
        Swhid::from_string("swh:1:cnt:B45EF6FEC89518D314F546FD6C3025367B721684"),
        Err(SwhidError::InvalidHash(_))
    ));
}

#[test]
fn test_content_anchor_hello_world() {
    let computer = SwhidComputer::new();
    let id = computer.compute_content_swhid(b"Hello, World!").unwrap();
    assert_eq!(
        id.to_string(),
        "swh:1:cnt:b45ef6fec89518d314f546fd6c3025367b721684"
    );
}

#[test]
fn test_content_anchor_empty() {
    let computer = SwhidComputer::new();
    let id = computer.compute_content_swhid(b"").unwrap();
    assert_eq!(
        id.to_string(),
        "swh:1:cnt:e69de29bb2d1d6434b8b29ae775ad8c2e48c5391"
    );
}

#[test]
fn test_verify_matches_computed() {
    let computer = SwhidComputer::new();
    let id = computer.compute_content_swhid(b"some bytes").unwrap();
    assert!(computer.verify_swhid(&id, &id.to_string()).unwrap());
    assert!(!computer
        .verify_swhid(&id, "swh:1:cnt:0000000000000000000000000000000000000000")
        .unwrap());
}
