//! Content-addressed, git-compatible identifiers for files and
//! directory trees.
//!
//! The library turns a byte buffer or an in-memory file tree into a
//! `swh:1:<kind>:<hex40>` identifier: it formats the canonical git
//! object payloads (blob and tree), hashes them with collision-hardened
//! SHA-1, and parses, renders and compares the identifier strings.

pub mod error;
pub mod computer;
pub mod content;
pub mod directory;
pub mod glob;
pub mod hash;
pub mod swhid;
pub mod walk;

pub use error::SwhidError;
pub use computer::SwhidComputer;
pub use swhid::{Swhid, ObjectType};
pub use content::Content;
pub use directory::{Directory, DirectoryEntry, EntryType, Permissions};
pub use walk::{FsChild, FsNode};
