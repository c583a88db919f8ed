use swhid::{ObjectType, SwhidComputer};

#[test]
fn test_swhid_computer_new() {
    let computer = SwhidComputer::new();
    assert_eq!(computer.follow_symlinks, false);
    assert!(computer.exclude_patterns.is_empty());
}

#[test]
fn test_swhid_computer_with_follow_symlinks() {
    let computer = SwhidComputer::new().with_follow_symlinks(true);
    assert_eq!(computer.follow_symlinks, true);
}

#[test]
fn test_swhid_computer_with_exclude_patterns() {
    let patterns = vec!["*.tmp".to_string(), "*.log".to_string()];
    let computer = SwhidComputer::new().with_exclude_patterns(&patterns);
    assert_eq!(computer.exclude_patterns, patterns);
}

#[test]
fn test_swhid_computer_compute_content_swhid() {
    let computer = SwhidComputer::new();
    let content = b"test content";
    let swhid = computer.compute_content_swhid(content).unwrap();

    assert_eq!(swhid.object_type(), ObjectType::Content);
    assert_eq!(swhid.hash().len(), 20);
}

#[test]
fn test_swhid_computer_default_matches_new() {
    let a = SwhidComputer::default();
    let b = SwhidComputer::new();
    assert_eq!(a.follow_symlinks, b.follow_symlinks);
    assert_eq!(a.exclude_patterns, b.exclude_patterns);
}

#[test]
fn test_verification_roundtrip() {
    let computer = SwhidComputer::new();
    let id = computer.compute_content_swhid(b"test content").unwrap();
    let ok = computer.verify_swhid(&id, &id.to_string()).unwrap();
    assert!(ok);
}

#[test]
fn test_verification_mismatch() {
    let computer = SwhidComputer::new();
    let id = computer.compute_content_swhid(b"test content").unwrap();
    let wrong = "swh:1:cnt:0000000000000000000000000000000000000000";
    let ok = computer.verify_swhid(&id, wrong).unwrap();
    assert!(!ok);
}

#[test]
fn test_verification_parse_error_propagates() {
    let computer = SwhidComputer::new();
    let id = computer.compute_content_swhid(b"test content").unwrap();
    assert!(computer.verify_swhid(&id, "not an id").is_err());
}
