use swhid::{Directory, DirectoryEntry, EntryType, Permissions, SwhidError};
use swhid::directory::entry_le_exec;

#[test]
fn test_directory_new() {
    let dir = Directory::new();
    assert_eq!(dir.entries().len(), 0);
    assert!(dir.path().is_none());
}

#[test]
fn test_empty_directory_anchor() {
    let mut dir = Directory::new();
    let swhid = dir.swhid();
    assert_eq!(
        swhid.to_string(),
        "swh:1:dir:4b825dc642cb6eb9a060e54bf8d69288fbee4904"
    );
}

#[test]
fn test_permissions_from_mode() {
    assert_eq!(Permissions::from_mode(0o040755), Permissions::Directory);
    assert_eq!(Permissions::from_mode(0o120777), Permissions::Symlink);
    assert_eq!(Permissions::from_mode(0o100755), Permissions::Executable);
    assert_eq!(Permissions::from_mode(0o100700), Permissions::Executable);
    assert_eq!(Permissions::from_mode(0o100644), Permissions::File);
    assert_eq!(Permissions::from_mode(0o100600), Permissions::File);
}

#[test]
fn test_permissions_as_octal() {
    assert_eq!(Permissions::File.as_octal(), 0o100644);
    assert_eq!(Permissions::Executable.as_octal(), 0o100755);
    assert_eq!(Permissions::Symlink.as_octal(), 0o120000);
    assert_eq!(Permissions::Directory.as_octal(), 0o040000);
}

#[test]
fn test_entry_type_as_str() {
    assert_eq!(EntryType::File.as_str(), "file");
    assert_eq!(EntryType::Directory.as_str(), "dir");
    assert_eq!(EntryType::Symlink.as_str(), "symlink");
}

#[test]
fn test_comparator_dir_sorts_after_prefixed_file() {
    // "dir" as a subdirectory compares as "dir/", after "dir.txt"
    let d = DirectoryEntry::new(
        b"dir".to_vec(),
        EntryType::Directory,
        Permissions::Directory,
        [0u8; 20],
    );
    let f = DirectoryEntry::new(
        b"dir.txt".to_vec(),
        EntryType::File,
        Permissions::File,
        [0u8; 20],
    );
    assert!(entry_le_exec(&f, &d));
    assert!(!entry_le_exec(&d, &f));
}

#[test]
fn test_from_entries_sorts() {
    let d = DirectoryEntry::new(
        b"dir".to_vec(),
        EntryType::Directory,
        Permissions::Directory,
        [1u8; 20],
    );
    let f = DirectoryEntry::new(
        b"dir.txt".to_vec(),
        EntryType::File,
        Permissions::File,
        [2u8; 20],
    );
    let dir = Directory::from_entries(vec![d, f]).unwrap();
    assert_eq!(dir.entries().len(), 2);
    assert_eq!(dir.entries()[0].name, b"dir.txt".to_vec());
    assert_eq!(dir.entries()[1].name, b"dir".to_vec());
}

#[test]
fn test_from_entries_duplicate_name() {
    let a = DirectoryEntry::new(b"same".to_vec(), EntryType::File, Permissions::File, [1u8; 20]);
    let b = DirectoryEntry::new(b"same".to_vec(), EntryType::File, Permissions::File, [2u8; 20]);
    let r = Directory::from_entries(vec![a, b]);
    assert!(matches!(r, Err(SwhidError::DuplicateEntry(_))));
}

#[test]
fn test_from_entries_invalid_name() {
    let bad = DirectoryEntry::new(
        b"a/b".to_vec(),
        EntryType::File,
        Permissions::File,
        [0u8; 20],
    );
    assert!(matches!(
        Directory::from_entries(vec![bad]),
        Err(SwhidError::InvalidInput(_))
    ));
    let empty = DirectoryEntry::new(Vec::new(), EntryType::File, Permissions::File, [0u8; 20]);
    assert!(matches!(
        Directory::from_entries(vec![empty]),
        Err(SwhidError::InvalidInput(_))
    ));
}

#[test]
fn test_from_entries_kind_mode_mismatch() {
    let bad = DirectoryEntry::new(
        b"x".to_vec(),
        EntryType::File,
        Permissions::Directory,
        [0u8; 20],
    );
    assert!(matches!(
        Directory::from_entries(vec![bad]),
        Err(SwhidError::InvalidInput(_))
    ));
}

#[test]
fn test_compute_hash_is_cached_and_stable() {
    let f = DirectoryEntry::new(b"a".to_vec(), EntryType::File, Permissions::File, [9u8; 20]);
    let mut dir = Directory::from_entries(vec![f]).unwrap();
    let h1 = dir.compute_hash();
    let h2 = dir.compute_hash();
    assert_eq!(h1, h2);
}

#[test]
fn test_rename_independence() {
    // the same entries under two different paths give one digest
    let entry = DirectoryEntry::new(b"a".to_vec(), EntryType::File, Permissions::File, [9u8; 20]);
    let mut d1 = Directory::from_entries(vec![entry.clone()]).unwrap();
    let mut d2 = Directory::from_entries(vec![entry]).unwrap();
    d1.path = Some("old/place".to_string());
    d2.path = Some("new/place".to_string());
    assert_eq!(d1.compute_hash(), d2.compute_hash());
}

#[test]
fn test_directory_entry_new() {
    let e = DirectoryEntry::new(
        b"name".to_vec(),
        EntryType::Symlink,
        Permissions::Symlink,
        [7u8; 20],
    );
    assert_eq!(e.name, b"name".to_vec());
    assert_eq!(e.entry_type, EntryType::Symlink);
    assert_eq!(e.permissions, Permissions::Symlink);
    assert_eq!(e.target, [7u8; 20]);
}
