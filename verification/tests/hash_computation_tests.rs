use swhid::walk::dir_from_children;
use swhid::{FsChild, FsNode, ObjectType, SwhidComputer};

fn file(name: &str, data: &[u8]) -> FsChild {
    FsChild {
        name: name.as_bytes().to_vec(),
        node: FsNode::File { mode: 0o100644, data: data.to_vec() },
    }
}

fn executable(name: &str, data: &[u8]) -> FsChild {
    FsChild {
        name: name.as_bytes().to_vec(),
        node: FsNode::File { mode: 0o100755, data: data.to_vec() },
    }
}

fn symlink(name: &str, target: &str) -> FsChild {
    FsChild {
        name: name.as_bytes().to_vec(),
        node: FsNode::Symlink { target: target.as_bytes().to_vec() },
    }
}

fn subdir(name: &str, children: Vec<FsChild>) -> FsChild {
    FsChild { name: name.as_bytes().to_vec(), node: FsNode::Dir { children } }
}

#[test]
fn hash_computation_tests_test_swhid_computer_basic() {
    let computer = SwhidComputer::new();

    let content = b"test content";
    let swhid = computer.compute_content_swhid(content).unwrap();

    assert_eq!(swhid.object_type(), ObjectType::Content);
    assert_eq!(swhid.hash().len(), 20);
}

#[test]
fn test_single_readme_tree_matches_git() {
    // one regular file README with contents "hello\n": the tree payload
    // is `100644 README\0` + the blob digest of "hello\n", and the
    // digest is git's tree OID for the same tree
    let computer = SwhidComputer::new();
    let id = computer
        .compute_directory_swhid(vec![file("README", b"hello\n")])
        .unwrap();
    assert_eq!(
        id.to_string(),
        "swh:1:dir:7d4a466af82cd6857c85c0296d5c23fc68cba887"
    );
}

#[test]
fn test_readme_entry_target_is_blob_digest() {
    let d = dir_from_children(vec![file("README", b"hello\n")], &Vec::new()).unwrap();
    assert_eq!(d.entries().len(), 1);
    assert_eq!(d.entries()[0].name, b"README".to_vec());
    assert_eq!(
        d.entries()[0].target.as_slice(),
        &hex::decode("ce013625030ba8dba906f756967f9e9ca394464a").unwrap()[..]
    );
}

#[test]
fn test_dir_sorts_after_dir_txt() {
    // serialized order is dir.txt first, then dir ("dir/" > "dir.txt")
    let children = vec![subdir("dir", Vec::new()), file("dir.txt", b"x")];
    let d = dir_from_children(children, &Vec::new()).unwrap();
    assert_eq!(d.entries().len(), 2);
    assert_eq!(d.entries()[0].name, b"dir.txt".to_vec());
    assert_eq!(d.entries()[1].name, b"dir".to_vec());

    let computer = SwhidComputer::new();
    let id = computer
        .compute_directory_swhid(vec![subdir("dir", Vec::new()), file("dir.txt", b"x")])
        .unwrap();
    assert_eq!(
        id.to_string(),
        "swh:1:dir:4e9376160908cf0a0da7c85887badbd52b282eaa"
    );
}

#[test]
fn test_symlink_entry_hashes_target_string() {
    // the symlink entry contributes `120000 link\0` + the blob digest
    // of the target path bytes, not of what the link points to
    let children = vec![symlink("link", "target.txt"), file("target.txt", b"target content")];
    let d = dir_from_children(children, &Vec::new()).unwrap();
    assert_eq!(d.entries().len(), 2);
    assert_eq!(d.entries()[0].name, b"link".to_vec());
    assert_eq!(
        d.entries()[0].target.as_slice(),
        &hex::decode("4cbb553f3f4ac2ee7b01ff6c951d6bf583c39c15").unwrap()[..]
    );

    let computer = SwhidComputer::new();
    let id = computer
        .compute_directory_swhid(vec![
            symlink("link", "target.txt"),
            file("target.txt", b"target content"),
        ])
        .unwrap();
    assert_eq!(
        id.to_string(),
        "swh:1:dir:a63a626e70e57a581a1d6aa5f709ce2b099b292d"
    );
}

#[test]
fn test_executable_mode_in_tree() {
    let computer = SwhidComputer::new();
    let id = computer
        .compute_directory_swhid(vec![
            file("normal.txt", b"normal content"),
            executable("script.sh", b"#!/bin/bash\necho hello"),
        ])
        .unwrap();
    assert_eq!(
        id.to_string(),
        "swh:1:dir:494eb3b73527fc83aa95cc5767b4977dbf6fdd55"
    );
}

#[test]
fn test_nested_directories() {
    let computer = SwhidComputer::new();
    let id = computer
        .compute_directory_swhid(vec![
            file("root.txt", b"root content"),
            subdir("subdir", vec![file("subfile.txt", b"sub content")]),
        ])
        .unwrap();
    assert_eq!(
        id.to_string(),
        "swh:1:dir:0f4499a26ea244b38a57dcec98421da13760002b"
    );
}

#[test]
fn test_exclude_patterns_filter_listing() {
    let patterns = vec!["*.tmp".to_string()];
    let computer = SwhidComputer::new().with_exclude_patterns(&patterns);
    let id = computer
        .compute_directory_swhid(vec![
            file("include.txt", b"include content"),
            file("exclude.tmp", b"exclude content"),
        ])
        .unwrap();
    assert_eq!(
        id.to_string(),
        "swh:1:dir:3f112b35bd459a95da6224ffcc5a3257f09b99ce"
    );

    // the same digest as a listing without the excluded entry at all
    let plain = SwhidComputer::new();
    let id2 = plain
        .compute_directory_swhid(vec![file("include.txt", b"include content")])
        .unwrap();
    assert!(id == id2);
}

#[test]
fn test_exclusion_idempotence() {
    // patterns that nothing matches change no digest
    let tree = || {
        vec![
            file("a.txt", b"alpha"),
            subdir("sub", vec![file("b.txt", b"beta")]),
        ]
    };
    let plain = SwhidComputer::new();
    let patterns = vec!["*.zzz".to_string(), "nothing-here".to_string()];
    let filtered = SwhidComputer::new().with_exclude_patterns(&patterns);
    let id1 = plain.compute_directory_swhid(tree()).unwrap();
    let id2 = filtered.compute_directory_swhid(tree()).unwrap();
    assert!(id1 == id2);
}

#[test]
fn test_determinism_same_tree_same_id() {
    let tree = || {
        vec![
            file("one", b"1"),
            symlink("two", "one"),
            subdir("three", vec![executable("run", b"#!/bin/sh\n")]),
        ]
    };
    let computer = SwhidComputer::new();
    let id1 = computer.compute_swhid(FsNode::Dir { children: tree() }).unwrap();
    let id2 = computer.compute_swhid(FsNode::Dir { children: tree() }).unwrap();
    assert!(id1 == id2);
    assert_eq!(id1.object_type(), ObjectType::Directory);
}

#[test]
fn test_compute_swhid_auto_detects() {
    let computer = SwhidComputer::new();
    let f = computer
        .compute_swhid(FsNode::File { mode: 0o100644, data: b"Hello, World!".to_vec() })
        .unwrap();
    assert_eq!(f.object_type(), ObjectType::Content);
    assert_eq!(
        f.to_string(),
        "swh:1:cnt:b45ef6fec89518d314f546fd6c3025367b721684"
    );

    // a symlink at the top level hashes its target string as content
    let l = computer
        .compute_swhid(FsNode::Symlink { target: b"Hello, World!".to_vec() })
        .unwrap();
    assert_eq!(l.object_type(), ObjectType::Content);
    assert!(l == f);

    let d = computer.compute_swhid(FsNode::Dir { children: Vec::new() }).unwrap();
    assert_eq!(d.object_type(), ObjectType::Directory);
    assert_eq!(
        d.to_string(),
        "swh:1:dir:4b825dc642cb6eb9a060e54bf8d69288fbee4904"
    );
}

#[test]
fn test_duplicate_sibling_names_rejected() {
    let computer = SwhidComputer::new();
    let r = computer.compute_directory_swhid(vec![file("same", b"1"), file("same", b"2")]);
    assert!(r.is_err());
}
