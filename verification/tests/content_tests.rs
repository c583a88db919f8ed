use swhid::{Content, ObjectType};

#[test]
fn test_content_from_data() {
    let data = b"Hello, World!".to_vec();
    let content = Content::from_data(data.clone());

    assert_eq!(content.data(), data.as_slice());
    assert_eq!(content.length(), 13);
    assert_eq!(content.sha1_git().len(), 20);
}

#[test]
fn test_content_swhid() {
    let data = b"Hello, World!";
    let content = Content::from_data(data.to_vec());
    let swhid = content.swhid();

    assert_eq!(swhid.object_type(), ObjectType::Content);
    assert_eq!(swhid.hash(), content.sha1_git());
}

#[test]
fn test_content_known_hashes() {
    // Known hash values for common content
    let empty_content = Content::from_data(b"".to_vec());
    let empty_swhid = empty_content.swhid();

    assert_eq!(
        empty_swhid.hash(),
        &hex::decode("e69de29bb2d1d6434b8b29ae775ad8c2e48c5391").unwrap()[..]
    );

    let hello_content = Content::from_data(b"Hello, World!".to_vec());
    let hello_swhid = hello_content.swhid();

    assert_eq!(
        hello_swhid.hash(),
        &hex::decode("b45ef6fec89518d314f546fd6c3025367b721684").unwrap()[..]
    );
}

#[test]
fn test_content_large_data() {
    let large_data = vec![b'a'; 10000];
    let content = Content::from_data(large_data.clone());

    assert_eq!(content.data(), large_data.as_slice());
    assert_eq!(content.length(), 10000);
    assert_eq!(content.sha1_git().len(), 20);
}
