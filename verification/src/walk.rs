//! The deterministic directory walk over an in-memory file tree:
//! exclusion filtering, kind and mode mapping, recursive target
//! digests, and the canonical directory construction.

use vstd::prelude::*;
use crate::error::SwhidError;
use crate::hash::blob_digest;
use crate::hash::sha1_git_hash;
use crate::glob::glob_match_spec;
use crate::directory::{
    Directory, DirectoryEntry, EntryModel, EntryType, Permissions, has_dup_names, lossy_of,
    models_of, name_ok, sort_entries_spec, tree_digest,
};

verus! {

/// A named child of a directory node.
pub struct FsChild {
    pub name: Vec<u8>,
    pub node: FsNode,
}

/// An in-memory image of a filesystem subtree, as the walk reads it
/// with lstat semantics: a regular file with its mode word and bytes,
/// a symbolic link with its target path bytes, or a directory with its
/// children in any order.
pub enum FsNode {
    File { mode: u32, data: Vec<u8> },
    Symlink { target: Vec<u8> },
    Dir { children: Vec<FsChild> },
}

/// Whether a name is excluded by the patterns: its lossily-decoded
/// text matches at least one of them.
pub open spec fn excluded(name: Seq<u8>, pats: Seq<String>) -> bool {
    exists|k: int| 0 <= k < pats.len() && glob_match_spec((#[trigger] pats[k])@, lossy_of(name))
}

/// The entry kind of a node.
pub open spec fn node_entry_type(n: FsNode) -> EntryType {
    match n {
        FsNode::File { .. } => EntryType::File,
        FsNode::Symlink { .. } => EntryType::Symlink,
        FsNode::Dir { .. } => EntryType::Directory,
    }
}

/// The permission code of a node: any execute bit makes a regular
/// file executable; symlinks and directories carry their fixed codes.
pub open spec fn node_permissions(n: FsNode) -> Permissions {
    match n {
        FsNode::File { mode, .. } => if mode & 0o111 != 0 {
            Permissions::Executable
        } else {
            Permissions::File
        },
        FsNode::Symlink { .. } => Permissions::Symlink,
        FsNode::Dir { .. } => Permissions::Directory,
    }
}

/// The digest a node contributes as a tree entry target: the blob
/// digest of a file's bytes, the blob digest of a symlink's target
/// path bytes, or the tree digest of a subdirectory.
pub open spec fn node_digest(n: FsNode, pats: Seq<String>) -> Seq<u8>
    decreases n, 1int,
{
    match n {
        FsNode::File { data, .. } => blob_digest(data@),
        FsNode::Symlink { target } => blob_digest(target@),
        FsNode::Dir { children } => tree_digest(dir_models(children@, pats)),
    }
}

/// The entry model a child contributes to its parent's tree.
pub open spec fn child_model(c: FsChild, pats: Seq<String>) -> EntryModel
    decreases c, 2int,
{
    EntryModel {
        name: c.name@,
        entry_type: node_entry_type(c.node),
        permissions: node_permissions(c.node),
        target: node_digest(c.node, pats),
    }
}

/// The models of the included children, in listing order.
pub open spec fn children_models(s: Seq<FsChild>, pats: Seq<String>) -> Seq<EntryModel>
    decreases s, 2int,
{
    if s.len() == 0 {
        Seq::empty()
    } else if excluded(s[0].name@, pats) {
        children_models(s.subrange(1, s.len() as int), pats)
    } else {
        seq![child_model(s[0], pats)] + children_models(s.subrange(1, s.len() as int), pats)
    }
}

/// The entry models of a directory level: the included children,
/// sorted by the git tree comparator.
pub open spec fn dir_models(s: Seq<FsChild>, pats: Seq<String>) -> Seq<EntryModel>
    decreases s, 3int,
{
    sort_entries_spec(children_models(s, pats))
}

/// Whether the canonical construction succeeds on a tree: every
/// included name is a valid entry name, no two included siblings share
/// a name, and every included subdirectory is itself buildable.
pub open spec fn tree_ok(n: FsNode, pats: Seq<String>) -> bool
    decreases n,
{
    match n {
        FsNode::File { .. } => true,
        FsNode::Symlink { .. } => true,
        FsNode::Dir { children } => {
            &&& forall|i: int|
                0 <= i < children@.len() && !excluded((#[trigger] children@[i]).name@, pats)
                    ==> name_ok(children@[i].name@) && tree_ok(children@[i].node, pats)
            &&& !has_dup_names(children_models(children@, pats))
        },
    }
}

/// No name anywhere in the tree matches any of the patterns.
pub open spec fn no_name_matches(n: FsNode, pats: Seq<String>) -> bool
    decreases n,
{
    match n {
        FsNode::File { .. } => true,
        FsNode::Symlink { .. } => true,
        FsNode::Dir { children } => forall|i: int|
            0 <= i < children@.len() ==> !excluded((#[trigger] children@[i]).name@, pats)
                && no_name_matches(children@[i].node, pats),
    }
}


/// Every included subtree is buildable.
pub open spec fn subtrees_ok(s: Seq<FsChild>, pats: Seq<String>) -> bool {
    forall|i: int|
        0 <= i < s.len() && !excluded((#[trigger] s[i]).name@, pats) ==> tree_ok(s[i].node, pats)
}

/// One directory level is buildable: included names valid, included
/// subtrees buildable, and no duplicate names among the included
/// entries.
pub open spec fn children_ok(s: Seq<FsChild>, pats: Seq<String>) -> bool {
    &&& forall|i: int|
        0 <= i < s.len() && !excluded((#[trigger] s[i]).name@, pats) ==> name_ok(s[i].name@)
    &&& subtrees_ok(s, pats)
    &&& !has_dup_names(children_models(s, pats))
}

/// The shape the walk gives every entry it builds: the permission
/// code fixed by the kind, and a 20-byte target.
pub open spec fn built_shape(ms: Seq<EntryModel>) -> bool {
    forall|j: int|
        0 <= j < ms.len() ==> crate::directory::kind_mode_ok(#[trigger] ms[j]) && ms[j].target.len()
            == 20
}

/// Each model among the included children's models comes from an
/// included child, and each included child contributes its model.
#[verifier::rlimit(60)]
proof fn lemma_children_models_elems(s: Seq<FsChild>, pats: Seq<String>)
    ensures
        forall|j: int|
            0 <= j < children_models(s, pats).len() ==> exists|i: int|
                0 <= i < s.len() && !excluded(s[i].name@, pats) && (#[trigger] children_models(
                    s,
                    pats,
                )[j]) == child_model(s[i], pats),
        forall|i: int|
            0 <= i < s.len() && !excluded((#[trigger] s[i]).name@, pats) ==> exists|j: int|
                0 <= j < children_models(s, pats).len() && children_models(s, pats)[j]
                    == child_model(s[i], pats),
    decreases s,
{
    let m = children_models(s, pats);
    if s.len() == 0 {
    } else {
        let rest = s.subrange(1, s.len() as int);
        let mr = children_models(rest, pats);
        lemma_children_models_elems(rest, pats);
        assert forall|j: int| 0 <= j < m.len() implies exists|i: int|
            0 <= i < s.len() && !excluded(s[i].name@, pats) && (#[trigger] m[j]) == child_model(
                s[i],
                pats,
            ) by {
            if excluded(s[0].name@, pats) {
                assert(m[j] == mr[j]);
                let i = choose|i: int|
                    0 <= i < rest.len() && !excluded(rest[i].name@, pats) && mr[j] == child_model(
                        rest[i],
                        pats,
                    );
                assert(rest[i] == s[i + 1]);
            } else {
                if j == 0 {
                    assert(m[0] == child_model(s[0], pats));
                } else {
                    assert(m[j] == mr[j - 1]);
                    let i = choose|i: int|
                        0 <= i < rest.len() && !excluded(rest[i].name@, pats) && mr[j - 1]
                            == child_model(rest[i], pats);
                    assert(rest[i] == s[i + 1]);
                }
            }
        }
        assert forall|i: int|
            0 <= i < s.len() && !excluded((#[trigger] s[i]).name@, pats) implies exists|j: int|
            0 <= j < m.len() && m[j] == child_model(s[i], pats) by {
            if i == 0 {
                assert(m[0] == child_model(s[0], pats));
            } else {
                assert(rest[i - 1] == s[i]);
                let j = choose|j: int|
                    0 <= j < mr.len() && mr[j] == child_model(rest[i - 1], pats);
                if excluded(s[0].name@, pats) {
                    assert(m[j] == mr[j]);
                } else {
                    assert(m[j + 1] == mr[j]);
                }
            }
        }
    }
}

/// Builds the tree entries of one directory level, in listing order:
/// filters excluded names, maps each included child to its kind, mode
/// and target digest, and recursively builds included subdirectories.
fn build_entries(children: Vec<FsChild>, patterns: &Vec<String>) -> (r: Result<
    Vec<DirectoryEntry>,
    SwhidError,
>)
    ensures
        r is Ok <==> subtrees_ok(children@, patterns@),
        r matches Ok(v) ==> models_of(v@) == children_models(children@, patterns@) && built_shape(
            models_of(v@),
        ),
        r matches Err(e) ==> e is DuplicateEntry || e is InvalidInput,
    decreases children@, 0int,
{
    let ghost gorig = children@;
    if children.len() == 0 {
        let r: Vec<DirectoryEntry> = Vec::new();
        proof {
            assert(models_of(r@) =~= children_models(gorig, patterns@));
        }
        return Ok(r);
    }
    let mut rem = children;
    let c = rem.remove(0);
    let ghost grest = gorig.subrange(1, gorig.len() as int);
    proof {
        assert(rem@ == grest);
        assert(c == gorig[0]);
        assert(decreases_to!(gorig => gorig.subrange(1, gorig.len() as int)));
    }
    let FsChild { name, node } = c;
    if Directory::should_exclude(name.as_slice(), patterns) {
        let r = build_entries(rem, patterns);
        proof {
            assert(children_models(gorig, patterns@) == children_models(grest, patterns@));
            if subtrees_ok(grest, patterns@) {
                assert forall|i: int|
                    0 <= i < gorig.len() && !excluded(
                        (#[trigger] gorig[i]).name@,
                        patterns@,
                    ) implies tree_ok(gorig[i].node, patterns@) by {
                    assert(gorig[i] == grest[i - 1]);
                }
            }
            if subtrees_ok(gorig, patterns@) {
                assert forall|i: int|
                    0 <= i < grest.len() && !excluded(
                        (#[trigger] grest[i]).name@,
                        patterns@,
                    ) implies tree_ok(grest[i].node, patterns@) by {
                    assert(grest[i] == gorig[i + 1]);
                }
            }
        }
        return r;
    }
    let entry: DirectoryEntry = match node {
        FsNode::File { mode, data } => {
            let digest = sha1_git_hash(data.as_slice());
            let perm = if mode & 0o111 != 0 {
                Permissions::Executable
            } else {
                Permissions::File
            };
            DirectoryEntry::new(name, EntryType::File, perm, digest)
        },
        FsNode::Symlink { target } => {
            let digest = sha1_git_hash(target.as_slice());
            DirectoryEntry::new(name, EntryType::Symlink, Permissions::Symlink, digest)
        },
        FsNode::Dir { children: sub } => {
            proof {
                assert(decreases_to!(gorig => gorig[0]));
                assert(decreases_to!(gorig[0] => gorig[0].node));
                assert(decreases_to!(gorig[0].node => gorig[0].node->children));
                assert(decreases_to!(gorig[0].node->children => gorig[0].node->children@));
                assert(decreases_to!(gorig => gorig[0].node->children@));
            }
            match dir_from_children(sub, patterns) {
                Ok(mut d) => {
                    let h = d.compute_hash();
                    DirectoryEntry::new(name, EntryType::Directory, Permissions::Directory, h)
                },
                Err(e) => {
                    proof {
                        assert(!tree_ok(gorig[0].node, patterns@));
                        assert(!excluded(gorig[0].name@, patterns@));
                        assert(!subtrees_ok(gorig, patterns@));
                    }
                    return Err(e);
                },
            }
        },
    };
    proof {
        assert(entry@ == child_model(gorig[0], patterns@));
        assert(tree_ok(gorig[0].node, patterns@));
    }
    match build_entries(rem, patterns) {
        Ok(mut v) => {
            v.insert(0, entry);
            proof {
                assert(models_of(v@) =~= seq![entry@] + children_models(grest, patterns@));
                assert(models_of(v@) == children_models(gorig, patterns@));
                assert forall|j: int| 0 <= j < models_of(v@).len() implies
                    crate::directory::kind_mode_ok(#[trigger] models_of(v@)[j]) && models_of(
                    v@,
                )[j].target.len() == 20 by {}
                assert forall|i: int|
                    0 <= i < gorig.len() && !excluded(
                        (#[trigger] gorig[i]).name@,
                        patterns@,
                    ) implies tree_ok(gorig[i].node, patterns@) by {
                    if i > 0 {
                        assert(gorig[i] == grest[i - 1]);
                    }
                }
            }
            Ok(v)
        },
        Err(e) => {
            proof {
                let i = choose|i: int|
                    0 <= i < grest.len() && !excluded((#[trigger] grest[i]).name@, patterns@)
                        && !tree_ok(grest[i].node, patterns@);
                assert(gorig[i + 1] == grest[i]);
                assert(!subtrees_ok(gorig, patterns@));
            }
            Err(e)
        },
    }
}

/// Builds the directory object of one level of an in-memory tree:
/// filters the children by the exclusion patterns, computes each
/// included child's target digest (recursively for subdirectories),
/// and sorts the entries by the git tree comparator.  Succeeds exactly
/// when the level and every included subtree are buildable.
#[verifier::rlimit(60)]
pub fn dir_from_children(children: Vec<FsChild>, patterns: &Vec<String>) -> (r: Result<
    Directory,
    SwhidError,
>)
    ensures
        r is Ok <==> children_ok(children@, patterns@),
        r matches Ok(d) ==> {
            &&& d.wf()
            &&& d.models() == dir_models(children@, patterns@)
            &&& d.hash is None
            &&& d.path is None
        },
        r matches Err(e) ==> e is DuplicateEntry || e is InvalidInput,
    decreases children@, 1int,
{
    let ghost gorig = children@;
    match build_entries(children, patterns) {
        Err(e) => {
            proof {
                assert(!children_ok(gorig, patterns@));
            }
            Err(e)
        },
        Ok(v) => {
            proof {
                lemma_children_models_elems(gorig, patterns@);
            }
            match Directory::from_entries(v) {
                Ok(d) => {
                    proof {
                        assert forall|i: int|
                            0 <= i < gorig.len() && !excluded(
                                (#[trigger] gorig[i]).name@,
                                patterns@,
                            ) implies name_ok(gorig[i].name@) by {
                            let j = choose|j: int|
                                0 <= j < children_models(gorig, patterns@).len()
                                    && children_models(gorig, patterns@)[j] == child_model(
                                    gorig[i],
                                    patterns@,
                                );
                            assert(crate::directory::entry_wf(models_of(v@)[j]));
                        }
                        assert(children_ok(gorig, patterns@));
                    }
                    Ok(d)
                },
                Err(e) => {
                    proof {
                        if crate::directory::all_entries_wf(models_of(v@)) {
                            assert(has_dup_names(children_models(gorig, patterns@)));
                            assert(!children_ok(gorig, patterns@));
                        } else {
                            let j = choose|j: int|
                                0 <= j < models_of(v@).len() && !crate::directory::entry_wf(
                                    #[trigger] models_of(v@)[j],
                                );
                            assert(!name_ok(models_of(v@)[j].name));
                            let i = choose|i: int|
                                0 <= i < gorig.len() && !excluded(gorig[i].name@, patterns@)
                                    && (#[trigger] children_models(gorig, patterns@)[j])
                                    == child_model(gorig[i], patterns@);
                            assert(!name_ok(gorig[i].name@));
                            assert(!children_ok(gorig, patterns@));
                        }
                    }
                    Err(e)
                },
            }
        },
    }
}


/// Determinism: the digest of a tree is a function of the tree and the
/// patterns alone.  Two computations over equal filesystem images with
/// equal patterns yield equal digests.
pub proof fn lemma_determinism(n1: FsNode, n2: FsNode, p1: Seq<String>, p2: Seq<String>)
    requires
        n1 == n2,
        p1 == p2,
    ensures
        node_digest(n1, p1) == node_digest(n2, p2),
{
}

/// The included children's models are the same under two pattern lists
/// that no name in the subtree matches.
proof fn lemma_exclusion_children(s: Seq<FsChild>, p1: Seq<String>, p2: Seq<String>)
    requires
        forall|i: int|
            0 <= i < s.len() ==> !excluded((#[trigger] s[i]).name@, p1) && no_name_matches(
                s[i].node,
                p1,
            ),
        forall|i: int|
            0 <= i < s.len() ==> !excluded((#[trigger] s[i]).name@, p2) && no_name_matches(
                s[i].node,
                p2,
            ),
    ensures
        children_models(s, p1) == children_models(s, p2),
    decreases s, 0int,
{
    if s.len() > 0 {
        let rest = s.subrange(1, s.len() as int);
        lemma_exclusion_idempotent(s[0].node, p1, p2);
        assert(child_model(s[0], p1) == child_model(s[0], p2));
        assert forall|i: int|
            0 <= i < rest.len() implies !excluded((#[trigger] rest[i]).name@, p1)
            && no_name_matches(rest[i].node, p1) by {
            assert(rest[i] == s[i + 1]);
        }
        assert forall|i: int|
            0 <= i < rest.len() implies !excluded((#[trigger] rest[i]).name@, p2)
            && no_name_matches(rest[i].node, p2) by {
            assert(rest[i] == s[i + 1]);
        }
        lemma_exclusion_children(rest, p1, p2);
        assert(children_models(s, p1) =~= children_models(s, p2));
    } else {
        assert(children_models(s, p1) =~= children_models(s, p2));
    }
}

/// Exclusion idempotence: when no name in the tree matches any pattern
/// of either list, the two lists build the same digest — adding or
/// removing patterns that nothing on disk matches changes nothing.
pub proof fn lemma_exclusion_idempotent(n: FsNode, p1: Seq<String>, p2: Seq<String>)
    requires
        no_name_matches(n, p1),
        no_name_matches(n, p2),
    ensures
        node_digest(n, p1) == node_digest(n, p2),
    decreases n, 1int,
{
    match n {
        FsNode::File { .. } => {},
        FsNode::Symlink { .. } => {},
        FsNode::Dir { children } => {
            lemma_exclusion_children(children@, p1, p2);
        },
    }
}

} // verus!
