//! The façade: configuration, dispatch over the kinds of tree node,
//! and verification of an identifier string against a computed one.

use vstd::prelude::*;
use crate::content::Content;
use crate::directory::tree_digest;
use crate::error::SwhidError;
use crate::hash::blob_digest;
use crate::hash::push_bytes;
use crate::hash::sha1_git_hash;
use crate::swhid::{
    hex_bytes_of, hex_field, kind_field, kind_of_code, parse_error_matches, valid_swhid_chars,
    ObjectType, Swhid,
};
use crate::walk::{
    children_ok, dir_from_children, dir_models, node_digest, tree_ok, FsChild, FsNode,
};

verus! {

/// Computes and verifies identifiers for in-memory filesystem images.
///
/// `follow_symlinks` governs only the path-level dispatch (done by the
/// caller that reads the disk): a followed symlink is resolved before
/// the tree node is built, so the node handed here already reflects
/// the choice.  `exclude_patterns` filter every directory listing.
#[derive(Debug, Clone)]
pub struct SwhidComputer {
    pub follow_symlinks: bool,
    pub exclude_patterns: Vec<String>,
}

impl Default for SwhidComputer {
    /// The default configuration: symlinks kept as links, nothing
    /// excluded.
    fn default() -> (r: Self)
        ensures
            !r.follow_symlinks,
            r.exclude_patterns@.len() == 0,
    {
        SwhidComputer { follow_symlinks: false, exclude_patterns: Vec::new() }
    }
}

impl SwhidComputer {
    /// Builds a computer with the default settings.
    pub fn new() -> (r: Self)
        ensures
            !r.follow_symlinks,
            r.exclude_patterns@.len() == 0,
    {
        SwhidComputer { follow_symlinks: false, exclude_patterns: Vec::new() }
    }

    /// Sets whether the path-level dispatch follows symlinks.
    pub fn with_follow_symlinks(self, follow_symlinks: bool) -> (r: Self)
        ensures
            r.follow_symlinks == follow_symlinks,
            r.exclude_patterns == self.exclude_patterns,
    {
        SwhidComputer { follow_symlinks, exclude_patterns: self.exclude_patterns }
    }

    /// Sets the exclusion patterns.
    pub fn with_exclude_patterns(self, exclude_patterns: &[String]) -> (r: Self)
        ensures
            r.follow_symlinks == self.follow_symlinks,
            r.exclude_patterns@.len() == exclude_patterns@.len(),
            forall|i: int|
                0 <= i < exclude_patterns@.len() ==> (#[trigger] r.exclude_patterns@[i])@
                    == exclude_patterns@[i]@,
    {
        let mut v: Vec<String> = Vec::new();
        let mut i: usize = 0;
        while i < exclude_patterns.len()
            invariant
                i <= exclude_patterns@.len(),
                v@.len() == i,
                forall|j: int| 0 <= j < i ==> (#[trigger] v@[j])@ == exclude_patterns@[j]@,
            decreases exclude_patterns@.len() - i,
        {
            v.push(exclude_patterns[i].clone());
            i = i + 1;
        }
        SwhidComputer { follow_symlinks: self.follow_symlinks, exclude_patterns: v }
    }

    /// Computes the identifier of a byte buffer: kind `cnt`, the
    /// git-blob digest of the bytes.
    pub fn compute_content_swhid(&self, content: &[u8]) -> (r: Result<Swhid, SwhidError>)
        ensures
            r is Ok,
            r matches Ok(id) ==> id.object_type == ObjectType::Content && id.hash@ == blob_digest(
                content@,
            ),
    {
        let mut data: Vec<u8> = Vec::new();
        push_bytes(&mut data, content);
        let content_obj = Content::from_data(data);
        Ok(content_obj.swhid())
    }

    /// Computes the identifier of a directory from its children: kind
    /// `dir`, the tree digest of the included children in comparator
    /// order.  Succeeds exactly when the tree is buildable.
    pub fn compute_directory_swhid(&self, children: Vec<FsChild>) -> (r: Result<
        Swhid,
        SwhidError,
    >)
        ensures
            r is Ok <==> children_ok(children@, self.exclude_patterns@),
            r matches Ok(id) ==> id.object_type == ObjectType::Directory && id.hash@
                == tree_digest(dir_models(children@, self.exclude_patterns@)),
            r matches Err(e) ==> e is DuplicateEntry || e is InvalidInput,
    {
        match dir_from_children(children, &self.exclude_patterns) {
            Ok(mut d) => Ok(d.swhid()),
            Err(e) => Err(e),
        }
    }

    /// Auto-detects the node kind and computes its identifier: a file
    /// gives the blob digest of its bytes, a symlink the blob digest of
    /// its target path bytes, a directory the tree digest.
    pub fn compute_swhid(&self, node: FsNode) -> (r: Result<Swhid, SwhidError>)
        ensures
            r is Ok <==> tree_ok(node, self.exclude_patterns@),
            r matches Ok(id) ==> id.hash@ == node_digest(node, self.exclude_patterns@)
                && id.object_type == (if node is Dir {
                ObjectType::Directory
            } else {
                ObjectType::Content
            }),
            r matches Err(e) ==> e is DuplicateEntry || e is InvalidInput,
    {
        match node {
            FsNode::File { mode: _, data } => {
                Ok(Swhid::new(ObjectType::Content, sha1_git_hash(data.as_slice())))
            },
            FsNode::Symlink { target } => {
                Ok(Swhid::new(ObjectType::Content, sha1_git_hash(target.as_slice())))
            },
            FsNode::Dir { children } => self.compute_directory_swhid(children),
        }
    }

    /// Verifies an identifier string against a computed identifier:
    /// parses the string (its errors pass through) and compares
    /// field-wise.
    pub fn verify_swhid(&self, computed: &Swhid, expected_swhid: &str) -> (r: Result<
        bool,
        SwhidError,
    >)
        ensures
            valid_swhid_chars(expected_swhid@) ==> r is Ok,
            r matches Ok(b) ==> valid_swhid_chars(expected_swhid@) && (b <==> (Some(
                computed.object_type,
            ) == kind_of_code(kind_field(expected_swhid@)) && computed.hash@ == hex_bytes_of(
                hex_field(expected_swhid@),
            ))),
            r matches Err(e) ==> !valid_swhid_chars(expected_swhid@) && parse_error_matches(
                e,
                expected_swhid@,
            ),
    {
        match Swhid::from_string(expected_swhid) {
            Err(e) => Err(e),
            Ok(expected) => Ok(expected == *computed),
        }
    }
}

} // verus!
