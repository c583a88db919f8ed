//! Content objects: a byte buffer together with its git-blob digest.

use vstd::prelude::*;
use crate::hash::{blob_digest, sha1_git_hash};
use crate::swhid::{ObjectType, Swhid};

verus! {

/// A content object: the pair (bytes, length) and the git-blob-style
/// digest `SHA1("blob " ‖ dec(length) ‖ NUL ‖ bytes)`, computed when
/// the object is built and immutable thereafter.
#[derive(Debug, Clone)]
pub struct Content {
    pub data: Vec<u8>,
    pub length: usize,
    pub sha1_git: [u8; 20],
}

impl Content {
    /// The cached length and digest agree with the data.
    pub open spec fn wf(&self) -> bool {
        &&& self.length == self.data@.len()
        &&& self.sha1_git@ == blob_digest(self.data@)
    }

    /// Builds a content object from a buffer, computing its digest.
    pub fn from_data(data: Vec<u8>) -> (r: Self)
        ensures
            r.data@ == data@,
            r.wf(),
    {
        let length = data.len();
        let sha1_git = sha1_git_hash(data.as_slice());
        Content { data, length, sha1_git }
    }

    /// The raw bytes.
    pub fn data(&self) -> (r: &[u8])
        ensures
            r@ == self.data@,
    {
        self.data.as_slice()
    }

    /// The byte count.
    pub fn length(&self) -> (r: usize)
        ensures
            r == self.length,
    {
        self.length
    }

    /// The git-blob-style digest.
    pub fn sha1_git(&self) -> (r: &[u8; 20])
        ensures
            r@ == self.sha1_git@,
    {
        &self.sha1_git
    }

    /// The identifier of this content: kind `cnt`, the blob digest.
    pub fn swhid(&self) -> (r: Swhid)
        ensures
            r.object_type == ObjectType::Content,
            r.hash@ == self.sha1_git@,
    {
        Swhid::new(ObjectType::Content, self.sha1_git)
    }
}

} // verus!
