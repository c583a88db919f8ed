//! Directory objects: canonical tree entries, the git tree comparator,
//! the serialized tree payload, and its digest.

use vstd::prelude::*;
use crate::error::SwhidError;
use crate::hash::{ascii_bytes, hash_git_object, push_bytes, sha1_of, tree_header};
use crate::swhid::{ObjectType, Swhid};
use crate::glob::glob_match_spec;
use crate::glob::glob_match;

verus! {

/// The kind of a directory entry.
#[derive(Debug, Clone, Copy, PartialEq, Eq, Structural)]
pub enum EntryType {
    File,
    Directory,
    Symlink,
}

impl EntryType {
    /// The kind as a word.
    pub open spec fn as_str_spec(self) -> Seq<char> {
        match self {
            EntryType::File => seq!['f', 'i', 'l', 'e'],
            EntryType::Directory => seq!['d', 'i', 'r'],
            EntryType::Symlink => seq!['s', 'y', 'm', 'l', 'i', 'n', 'k'],
        }
    }

    /// The kind as a word: `file`, `dir` or `symlink`.
    pub fn as_str(&self) -> (r: &'static str)
        ensures
            r@ == self.as_str_spec(),
    {
        match self {
            EntryType::File => {
                proof {
                    reveal_strlit("file");
                    assert("file"@ =~= self.as_str_spec());
                }
                "file"
            },
            EntryType::Directory => {
                proof {
                    reveal_strlit("dir");
                    assert("dir"@ =~= self.as_str_spec());
                }
                "dir"
            },
            EntryType::Symlink => {
                proof {
                    reveal_strlit("symlink");
                    assert("symlink"@ =~= self.as_str_spec());
                }
                "symlink"
            },
        }
    }
}

/// The git-style permission code of an entry.  Each kind carries one
/// fixed code; the two file codes differ by the executable bits.
#[derive(Debug, Clone, Copy, PartialEq, Eq, Structural)]
pub enum Permissions {
    File,
    Executable,
    Symlink,
    Directory,
}

impl Permissions {
    /// Classification of an lstat mode word: the file-type bits pick
    /// directories and symlinks; any execute bit makes a regular file
    /// executable.
    pub open spec fn from_mode_spec(mode: u32) -> Permissions {
        if mode & 0o170000 == 0o040000 {
            Permissions::Directory
        } else if mode & 0o170000 == 0o120000 {
            Permissions::Symlink
        } else if mode & 0o111 != 0 {
            Permissions::Executable
        } else {
            Permissions::File
        }
    }

    /// Classifies an lstat mode word.
    pub fn from_mode(mode: u32) -> (r: Self)
        ensures
            r == Permissions::from_mode_spec(mode),
    {
        if mode & 0o170000 == 0o040000 {
            Permissions::Directory
        } else if mode & 0o170000 == 0o120000 {
            Permissions::Symlink
        } else if mode & 0o111 != 0 {
            Permissions::Executable
        } else {
            Permissions::File
        }
    }

    /// The numeric mode.
    pub open spec fn as_octal_spec(self) -> u32 {
        match self {
            Permissions::File => 0o100644,
            Permissions::Executable => 0o100755,
            Permissions::Symlink => 0o120000,
            Permissions::Directory => 0o040000,
        }
    }

    /// The numeric mode of this code.
    pub fn as_octal(&self) -> (r: u32)
        ensures
            r == self.as_octal_spec(),
    {
        match self {
            Permissions::File => 0o100644,
            Permissions::Executable => 0o100755,
            Permissions::Symlink => 0o120000,
            Permissions::Directory => 0o040000,
        }
    }

    /// The ASCII decimal mode as written in a tree payload record:
    /// `100644`, `100755`, `120000`, or `40000` — the directory code
    /// loses its leading zero, as git writes it.
    pub open spec fn mode_bytes(self) -> Seq<u8> {
        match self {
            Permissions::File => seq![49u8, 48u8, 48u8, 54u8, 52u8, 52u8],
            Permissions::Executable => seq![49u8, 48u8, 48u8, 55u8, 53u8, 53u8],
            Permissions::Symlink => seq![49u8, 50u8, 48u8, 48u8, 48u8, 48u8],
            Permissions::Directory => seq![52u8, 48u8, 48u8, 48u8, 48u8],
        }
    }
}

/// Appends the payload mode digits of `p` to `out`.
fn push_mode(p: Permissions, out: &mut Vec<u8>)
    ensures
        final(out)@ == old(out)@ + p.mode_bytes(),
{
    match p {
        Permissions::File => {
            out.push(49);
            out.push(48);
            out.push(48);
            out.push(54);
            out.push(52);
            out.push(52);
        },
        Permissions::Executable => {
            out.push(49);
            out.push(48);
            out.push(48);
            out.push(55);
            out.push(53);
            out.push(53);
        },
        Permissions::Symlink => {
            out.push(49);
            out.push(50);
            out.push(48);
            out.push(48);
            out.push(48);
            out.push(48);
        },
        Permissions::Directory => {
            out.push(52);
            out.push(48);
            out.push(48);
            out.push(48);
            out.push(48);
        },
    }
    proof {
        assert(out@ =~= old(out)@ + p.mode_bytes());
    }
}

/// The mathematical value of a directory entry.
pub struct EntryModel {
    pub name: Seq<u8>,
    pub entry_type: EntryType,
    pub permissions: Permissions,
    pub target: Seq<u8>,
}

/// One entry of a directory: the raw filename bytes, the kind, the
/// permission code, and the 20-byte digest of the entry's target.
#[derive(Debug, Clone)]
pub struct DirectoryEntry {
    pub name: Vec<u8>,
    pub entry_type: EntryType,
    pub permissions: Permissions,
    pub target: [u8; 20],
}

impl View for DirectoryEntry {
    type V = EntryModel;

    open spec fn view(&self) -> EntryModel {
        EntryModel {
            name: self.name@,
            entry_type: self.entry_type,
            permissions: self.permissions,
            target: self.target@,
        }
    }
}

impl DirectoryEntry {
    /// Builds an entry from its four fields.
    pub fn new(
        name: Vec<u8>,
        entry_type: EntryType,
        permissions: Permissions,
        target: [u8; 20],
    ) -> (r: Self)
        ensures
            r@.name == name@,
            r@.entry_type == entry_type,
            r@.permissions == permissions,
            r@.target == target@,
    {
        DirectoryEntry { name, entry_type, permissions, target }
    }
}

/// The models of a sequence of entries.
pub open spec fn models_of(s: Seq<DirectoryEntry>) -> Seq<EntryModel> {
    s.map_values(|e: DirectoryEntry| e@)
}

/// A filename as stored in a tree: never empty, never holding `/` or
/// `NUL`.
pub open spec fn name_ok(name: Seq<u8>) -> bool {
    &&& name.len() > 0
    &&& forall|i: int| 0 <= i < name.len() ==> #[trigger] name[i] != 47u8 && name[i] != 0u8
}

/// The permission code fixed by the entry's kind.
pub open spec fn kind_mode_ok(e: EntryModel) -> bool {
    match e.entry_type {
        EntryType::File => e.permissions == Permissions::File || e.permissions
            == Permissions::Executable,
        EntryType::Symlink => e.permissions == Permissions::Symlink,
        EntryType::Directory => e.permissions == Permissions::Directory,
    }
}

/// A well-formed entry: a valid name, a mode agreeing with the kind,
/// and a 20-byte target digest.
pub open spec fn entry_wf(e: EntryModel) -> bool {
    name_ok(e.name) && kind_mode_ok(e) && e.target.len() == 20
}

/// The key the git tree comparator sorts by: the name, with `/`
/// appended when the entry is a subdirectory.
pub open spec fn sort_key(e: EntryModel) -> Seq<u8> {
    if e.entry_type == EntryType::Directory {
        e.name.push(47u8)
    } else {
        e.name
    }
}

/// Byte-lexicographic order: a proper prefix sorts first, otherwise the
/// first differing byte decides.
pub open spec fn lex_le(a: Seq<u8>, b: Seq<u8>) -> bool
    decreases a.len(),
{
    if a.len() == 0 {
        true
    } else if b.len() == 0 {
        false
    } else if a[0] < b[0] {
        true
    } else if a[0] > b[0] {
        false
    } else {
        lex_le(a.subrange(1, a.len() as int), b.subrange(1, b.len() as int))
    }
}

/// The git tree comparator: byte order on the sort keys.
pub open spec fn entry_le(a: EntryModel, b: EntryModel) -> bool {
    lex_le(sort_key(a), sort_key(b))
}

/// Entries in comparator order.
pub open spec fn entries_sorted(s: Seq<EntryModel>) -> bool {
    forall|i: int, j: int| 0 <= i < j < s.len() ==> entry_le(#[trigger] s[i], #[trigger] s[j])
}

/// Two entries somewhere in the sequence share a name.
pub open spec fn has_dup_names(s: Seq<EntryModel>) -> bool {
    exists|i: int, j: int|
        0 <= i < j < s.len() && (#[trigger] s[i]).name == (#[trigger] s[j]).name
}

/// Every entry is well-formed.
pub open spec fn all_entries_wf(s: Seq<EntryModel>) -> bool {
    forall|i: int| 0 <= i < s.len() ==> entry_wf(#[trigger] s[i])
}

/// The payload record of one entry:
/// `mode SP name NUL target-digest`.
pub open spec fn entry_record(e: EntryModel) -> Seq<u8> {
    e.permissions.mode_bytes() + seq![32u8] + e.name + seq![0u8] + e.target
}

/// The tree payload: the concatenated records, in sequence order.
pub open spec fn payload_of(s: Seq<EntryModel>) -> Seq<u8>
    decreases s.len(),
{
    if s.len() == 0 {
        Seq::empty()
    } else {
        entry_record(s[0]) + payload_of(s.subrange(1, s.len() as int))
    }
}

/// The digest of a directory with entries `s`: collision-hardened
/// SHA-1 over `"tree <len>\0"` followed by the payload.
pub open spec fn tree_digest(s: Seq<EntryModel>) -> Seq<u8> {
    sha1_of(tree_header(payload_of(s).len()) + payload_of(s))
}

/// One record appended to the entries appends one record to the
/// payload.
proof fn lemma_payload_snoc(s: Seq<EntryModel>, e: EntryModel)
    ensures
        payload_of(s.push(e)) == payload_of(s) + entry_record(e),
    decreases s.len(),
{
    if s.len() == 0 {
        assert(s.push(e)[0] == e);
        assert(s.push(e).subrange(1, 1) =~= Seq::<EntryModel>::empty());
        assert(payload_of(s.push(e).subrange(1, 1)) == Seq::<u8>::empty());
        assert(payload_of(s.push(e)) =~= payload_of(s) + entry_record(e));
    } else {
        assert(s.push(e).subrange(1, s.len() as int + 1) =~= s.subrange(1, s.len() as int).push(
            e,
        ));
        lemma_payload_snoc(s.subrange(1, s.len() as int), e);
        assert(payload_of(s.push(e)) =~= payload_of(s) + entry_record(e));
    }
}

/// A directory object: an ordered entry sequence, the digest cached on
/// first computation, and the path it was read from, if any.
#[derive(Debug, Clone)]
pub struct Directory {
    pub entries: Vec<DirectoryEntry>,
    pub hash: Option<[u8; 20]>,
    pub path: Option<String>,
}

impl Directory {
    /// The models of the entries, in order.
    pub open spec fn models(&self) -> Seq<EntryModel> {
        models_of(self.entries@)
    }

    /// Invariants of a directory object: entries well-formed, in
    /// comparator order, with distinct names; a cached digest, if
    /// present, is the tree digest of the entries.
    pub open spec fn wf(&self) -> bool {
        &&& all_entries_wf(self.models())
        &&& entries_sorted(self.models())
        &&& !has_dup_names(self.models())
        &&& (self.hash matches Some(h) ==> h@ == tree_digest(self.models()))
    }

    /// Builds an empty directory.
    pub fn new() -> (r: Self)
        ensures
            r.models() == Seq::<EntryModel>::empty(),
            r.hash is None,
            r.path is None,
            r.wf(),
    {
        let r = Directory { entries: Vec::new(), hash: None, path: None };
        proof {
            assert(r.models() =~= Seq::<EntryModel>::empty());
        }
        r
    }

    /// The entries, in comparator order.
    pub fn entries(&self) -> (r: &[DirectoryEntry])
        ensures
            r@ == self.entries@,
    {
        self.entries.as_slice()
    }

    /// The path this directory was read from, if any.
    pub fn path(&self) -> (r: Option<&String>)
        ensures
            r matches Some(p) ==> self.path matches Some(q) && p@ == q@,
            r is None <==> self.path is None,
    {
        self.path.as_ref()
    }

    /// Serializes the entries into the tree payload:
    /// `mode SP name NUL target` for each entry, in order.
    fn payload(&self) -> (r: Vec<u8>)
        ensures
            r@ == payload_of(self.models()),
    {
        let mut components: Vec<u8> = Vec::new();
        let mut i: usize = 0;
        while i < self.entries.len()
            invariant
                i <= self.entries@.len(),
                components@ == payload_of(self.models().subrange(0, i as int)),
            decreases self.entries@.len() - i,
        {
            let e = &self.entries[i];
            push_mode(e.permissions, &mut components);
            components.push(32);
            push_bytes(&mut components, e.name.as_slice());
            components.push(0);
            push_bytes(&mut components, e.target.as_slice());
            proof {
                assert(self.models().subrange(0, i + 1) =~= self.models().subrange(
                    0,
                    i as int,
                ).push(self.models()[i as int]));
                lemma_payload_snoc(self.models().subrange(0, i as int), self.models()[i as int]);
                assert(components@ =~= payload_of(self.models().subrange(0, i as int))
                    + entry_record(self.models()[i as int]));
            }
            i = i + 1;
        }
        proof {
            assert(self.models().subrange(0, self.models().len() as int) =~= self.models());
        }
        components
    }

    /// Computes the tree digest of the entries, caching it on first
    /// use; later calls return the cached value unchanged.
    pub fn compute_hash(&mut self) -> (r: [u8; 20])
        requires
            old(self).wf(),
        ensures
            final(self).wf(),
            final(self).entries@ == old(self).entries@,
            final(self).path == old(self).path,
            final(self).hash == Some(r),
            r@ == tree_digest(old(self).models()),
    {
        if let Some(h) = self.hash {
            return h;
        }
        let components = self.payload();
        proof {
            reveal_strlit("tree");
            assert forall|i: int| 0 <= i < "tree"@.len() implies ("tree"@[i] as int) < 128 by {}
            assert(ascii_bytes("tree"@) =~= seq![116u8, 114u8, 101u8, 101u8]);
        }
        let h = hash_git_object("tree", components.as_slice());
        self.hash = Some(h);
        h
    }

    /// The identifier of this directory: kind `dir`, the tree digest,
    /// cached as by `compute_hash`.
    pub fn swhid(&mut self) -> (r: Swhid)
        requires
            old(self).wf(),
        ensures
            final(self).wf(),
            final(self).entries@ == old(self).entries@,
            final(self).path == old(self).path,
            r.object_type == ObjectType::Directory,
            r.hash@ == tree_digest(old(self).models()),
    {
        let h = self.compute_hash();
        Swhid::new(ObjectType::Directory, h)
    }
}


/// Where an entry goes in a sequence already in comparator order.
pub open spec fn insert_sorted(e: EntryModel, s: Seq<EntryModel>) -> Seq<EntryModel>
    decreases s.len(),
{
    if s.len() == 0 {
        seq![e]
    } else if entry_le(e, s[0]) {
        seq![e] + s
    } else {
        seq![s[0]] + insert_sorted(e, s.subrange(1, s.len() as int))
    }
}

/// The comparator-order arrangement of a sequence of entries:
/// insertion sort, from the front.
pub open spec fn sort_entries_spec(s: Seq<EntryModel>) -> Seq<EntryModel>
    decreases s.len(),
{
    if s.len() == 0 {
        s
    } else {
        insert_sorted(s[0], sort_entries_spec(s.subrange(1, s.len() as int)))
    }
}

/// Some entry bears the name `n`.
pub open spec fn name_in(s: Seq<EntryModel>, n: Seq<u8>) -> bool {
    exists|i: int| 0 <= i < s.len() && (#[trigger] s[i]).name == n
}

/// Byte order is total.
proof fn lemma_lex_le_total(a: Seq<u8>, b: Seq<u8>)
    ensures
        lex_le(a, b) || lex_le(b, a),
    decreases a.len(),
{
    if a.len() > 0 && b.len() > 0 && a[0] == b[0] {
        lemma_lex_le_total(a.subrange(1, a.len() as int), b.subrange(1, b.len() as int));
    }
}

/// Byte order is transitive.
proof fn lemma_lex_le_trans(a: Seq<u8>, b: Seq<u8>, c: Seq<u8>)
    requires
        lex_le(a, b),
        lex_le(b, c),
    ensures
        lex_le(a, c),
    decreases a.len(),
{
    if a.len() > 0 && b.len() > 0 && c.len() > 0 && a[0] == b[0] && b[0] == c[0] {
        lemma_lex_le_trans(
            a.subrange(1, a.len() as int),
            b.subrange(1, b.len() as int),
            c.subrange(1, c.len() as int),
        );
    }
}

/// Byte order is antisymmetric.
proof fn lemma_lex_le_antisym(a: Seq<u8>, b: Seq<u8>)
    requires
        lex_le(a, b),
        lex_le(b, a),
    ensures
        a == b,
    decreases a.len(),
{
    if a.len() == 0 {
        assert(b.len() == 0);
        assert(a =~= b);
    } else {
        assert(b.len() > 0);
        assert(a[0] == b[0]);
        lemma_lex_le_antisym(a.subrange(1, a.len() as int), b.subrange(1, b.len() as int));
        assert forall|i: int| 0 <= i < a.len() implies a[i] == b[i] by {
            if i > 0 {
                assert(a.subrange(1, a.len() as int)[i - 1] == a[i]);
                assert(b.subrange(1, b.len() as int)[i - 1] == b[i]);
            }
        }
        assert(a =~= b);
    }
}

/// The comparator orders every pair of entries.
pub proof fn lemma_comparator_total(a: EntryModel, b: EntryModel)
    ensures
        entry_le(a, b) || entry_le(b, a),
{
    lemma_lex_le_total(sort_key(a), sort_key(b));
}

/// The comparator is transitive.
pub proof fn lemma_comparator_trans(a: EntryModel, b: EntryModel, c: EntryModel)
    requires
        entry_le(a, b),
        entry_le(b, c),
    ensures
        entry_le(a, c),
{
    lemma_lex_le_trans(sort_key(a), sort_key(b), sort_key(c));
}

/// The only ties the comparator allows are entries of one name: two
/// well-formed entries that each sort at-or-before the other share
/// their name.  Since a directory rejects duplicate names, its order
/// is strict.
pub proof fn lemma_comparator_ties_share_name(a: EntryModel, b: EntryModel)
    requires
        entry_wf(a),
        entry_wf(b),
        entry_le(a, b),
        entry_le(b, a),
    ensures
        a.name == b.name,
{
    lemma_lex_le_antisym(sort_key(a), sort_key(b));
    let ka = sort_key(a);
    if a.entry_type == EntryType::Directory && b.entry_type == EntryType::Directory {
        assert forall|i: int| 0 <= i < a.name.len() implies a.name[i] == b.name[i] by {
            assert(a.name.push(47u8)[i] == a.name[i]);
            assert(b.name.push(47u8)[i] == b.name[i]);
        }
        assert(a.name.len() == b.name.len());
        assert(a.name =~= b.name);
    } else if a.entry_type == EntryType::Directory && b.entry_type != EntryType::Directory {
        assert(b.name[b.name.len() - 1] == a.name.push(47u8)[a.name.len() as int]);
        assert(b.name[b.name.len() - 1] == 47u8);
        assert(false);
    } else if a.entry_type != EntryType::Directory && b.entry_type == EntryType::Directory {
        assert(a.name[a.name.len() - 1] == b.name.push(47u8)[b.name.len() as int]);
        assert(a.name[a.name.len() - 1] == 47u8);
        assert(false);
    } else {
    }
}

/// Bearing a name splits over the head and tail of a sequence.
proof fn lemma_name_in_cons(s: Seq<EntryModel>, n: Seq<u8>)
    requires
        s.len() > 0,
    ensures
        name_in(s, n) == (s[0].name == n || name_in(s.subrange(1, s.len() as int), n)),
{
    let rest = s.subrange(1, s.len() as int);
    if name_in(s, n) {
        let i = choose|i: int| 0 <= i < s.len() && (#[trigger] s[i]).name == n;
        if i > 0 {
            assert(rest[i - 1] == s[i]);
            assert(rest[i - 1].name == n);
        }
    }
    if name_in(rest, n) {
        let i = choose|i: int| 0 <= i < rest.len() && (#[trigger] rest[i]).name == n;
        assert(s[i + 1] == rest[i]);
        assert(s[i + 1].name == n);
    }
}

/// Duplicate names split over the head and tail of a sequence.
proof fn lemma_has_dup_cons(s: Seq<EntryModel>)
    requires
        s.len() > 0,
    ensures
        has_dup_names(s) == (name_in(s.subrange(1, s.len() as int), s[0].name) || has_dup_names(
            s.subrange(1, s.len() as int),
        )),
{
    let rest = s.subrange(1, s.len() as int);
    if has_dup_names(s) {
        let (i, j): (int, int) = choose|i: int, j: int|
            0 <= i < j < s.len() && (#[trigger] s[i]).name == (#[trigger] s[j]).name;
        if i == 0 {
            assert(rest[j - 1] == s[j]);
            assert(rest[j - 1].name == s[0].name);
        } else {
            assert(rest[i - 1] == s[i]);
            assert(rest[j - 1] == s[j]);
            assert(rest[i - 1].name == rest[j - 1].name);
        }
    }
    if name_in(rest, s[0].name) {
        let k = choose|k: int| 0 <= k < rest.len() && (#[trigger] rest[k]).name == s[0].name;
        assert(s[k + 1] == rest[k]);
        assert(s[0].name == s[k + 1].name);
    }
    if has_dup_names(rest) {
        let (i, j): (int, int) = choose|i: int, j: int|
            0 <= i < j < rest.len() && (#[trigger] rest[i]).name == (#[trigger] rest[j]).name;
        assert(s[i + 1] == rest[i]);
        assert(s[j + 1] == rest[j]);
        assert(s[i + 1].name == s[j + 1].name);
    }
}

/// Well-formedness of all entries splits over head and tail.
proof fn lemma_all_wf_cons(s: Seq<EntryModel>)
    requires
        s.len() > 0,
    ensures
        all_entries_wf(s) == (entry_wf(s[0]) && all_entries_wf(s.subrange(1, s.len() as int))),
{
    let rest = s.subrange(1, s.len() as int);
    if entry_wf(s[0]) && all_entries_wf(rest) {
        assert forall|i: int| 0 <= i < s.len() implies entry_wf(#[trigger] s[i]) by {
            if i > 0 {
                assert(rest[i - 1] == s[i]);
            }
        }
    }
    if all_entries_wf(s) {
        assert forall|i: int| 0 <= i < rest.len() implies entry_wf(#[trigger] rest[i]) by {
            assert(rest[i] == s[i + 1]);
        }
    }
}

/// Insertion adds exactly the inserted entry's name to those borne.
proof fn lemma_insert_name_in(e: EntryModel, s: Seq<EntryModel>, n: Seq<u8>)
    ensures
        name_in(insert_sorted(e, s), n) == (name_in(s, n) || e.name == n),
    decreases s.len(),
{
    let t = insert_sorted(e, s);
    if s.len() == 0 {
        assert(t =~= seq![e]);
        if name_in(t, n) {
            let i = choose|i: int| 0 <= i < t.len() && (#[trigger] t[i]).name == n;
            assert(t[i] == e);
        }
        if e.name == n {
            assert(t[0].name == n);
        }
    } else if entry_le(e, s[0]) {
        assert(t == seq![e] + s);
        assert(t.len() == s.len() + 1);
        assert(t[0] == e);
        lemma_name_in_cons(t, n);
        assert(t.subrange(1, t.len() as int) =~= s);
    } else {
        let rest = s.subrange(1, s.len() as int);
        let u = insert_sorted(e, rest);
        assert(t == seq![s[0]] + u);
        assert(t[0] == s[0]);
        lemma_name_in_cons(t, n);
        assert(t.subrange(1, t.len() as int) =~= u);
        lemma_insert_name_in(e, rest, n);
        lemma_name_in_cons(s, n);
    }
}

/// Insertion introduces a duplicate exactly when the name was already
/// borne.
proof fn lemma_insert_has_dup(e: EntryModel, s: Seq<EntryModel>)
    ensures
        has_dup_names(insert_sorted(e, s)) == (has_dup_names(s) || name_in(s, e.name)),
    decreases s.len(),
{
    let t = insert_sorted(e, s);
    if s.len() == 0 {
        assert(t =~= seq![e]);
        if has_dup_names(t) {
            let (i, j): (int, int) = choose|i: int, j: int|
                0 <= i < j < t.len() && (#[trigger] t[i]).name == (#[trigger] t[j]).name;
            assert(false);
        }
    } else if entry_le(e, s[0]) {
        assert(t == seq![e] + s);
        assert(t[0] == e);
        lemma_has_dup_cons(t);
        assert(t.subrange(1, t.len() as int) =~= s);
    } else {
        let rest = s.subrange(1, s.len() as int);
        let u = insert_sorted(e, rest);
        assert(t == seq![s[0]] + u);
        assert(t[0] == s[0]);
        lemma_has_dup_cons(t);
        assert(t.subrange(1, t.len() as int) =~= u);
        lemma_insert_name_in(e, rest, s[0].name);
        lemma_insert_has_dup(e, rest);
        lemma_has_dup_cons(s);
        lemma_name_in_cons(s, e.name);
    }
}

/// Insertion keeps exactly the entries' well-formedness.
proof fn lemma_insert_all_wf(e: EntryModel, s: Seq<EntryModel>)
    ensures
        all_entries_wf(insert_sorted(e, s)) == (all_entries_wf(s) && entry_wf(e)),
    decreases s.len(),
{
    let t = insert_sorted(e, s);
    if s.len() == 0 {
        assert(t =~= seq![e]);
        if entry_wf(e) {
            assert forall|i: int| 0 <= i < t.len() implies entry_wf(#[trigger] t[i]) by {
                assert(t[i] == e);
            }
        }
        if all_entries_wf(t) {
            assert(entry_wf(t[0]));
        }
    } else if entry_le(e, s[0]) {
        assert(t == seq![e] + s);
        assert(t[0] == e);
        lemma_all_wf_cons(t);
        assert(t.subrange(1, t.len() as int) =~= s);
    } else {
        let rest = s.subrange(1, s.len() as int);
        let u = insert_sorted(e, rest);
        assert(t == seq![s[0]] + u);
        assert(t[0] == s[0]);
        lemma_all_wf_cons(t);
        assert(t.subrange(1, t.len() as int) =~= u);
        lemma_insert_all_wf(e, rest);
        lemma_all_wf_cons(s);
    }
}

/// Every element of an insertion is the inserted entry or one of the
/// sequence.
proof fn lemma_insert_elems(e: EntryModel, s: Seq<EntryModel>)
    ensures
        insert_sorted(e, s).len() == s.len() + 1,
        forall|i: int|
            0 <= i < insert_sorted(e, s).len() ==> ((#[trigger] insert_sorted(e, s)[i]) == e
                || exists|j: int| 0 <= j < s.len() && s[j] == insert_sorted(e, s)[i]),
    decreases s.len(),
{
    let t = insert_sorted(e, s);
    if s.len() == 0 {
    } else if entry_le(e, s[0]) {
        assert forall|i: int| 0 <= i < t.len() implies ((#[trigger] t[i]) == e || exists|j: int|
            0 <= j < s.len() && s[j] == t[i]) by {
            if i > 0 {
                assert(s[i - 1] == t[i]);
            }
        }
    } else {
        let rest = s.subrange(1, s.len() as int);
        let u = insert_sorted(e, rest);
        lemma_insert_elems(e, rest);
        assert forall|i: int| 0 <= i < t.len() implies ((#[trigger] t[i]) == e || exists|j: int|
            0 <= j < s.len() && s[j] == t[i]) by {
            if i == 0 {
                assert(t[0] == s[0]);
            } else {
                assert(t[i] == u[i - 1]);
                if u[i - 1] == e {
                } else {
                    let j = choose|j: int| 0 <= j < rest.len() && rest[j] == u[i - 1];
                    assert(s[j + 1] == rest[j]);
                }
            }
        }
    }
}

/// Insertion into a sorted sequence keeps it sorted.
proof fn lemma_insert_sorted_sorted(e: EntryModel, s: Seq<EntryModel>)
    requires
        entries_sorted(s),
    ensures
        entries_sorted(insert_sorted(e, s)),
    decreases s.len(),
{
    let t = insert_sorted(e, s);
    if s.len() == 0 {
        assert forall|i: int, j: int| 0 <= i < j < t.len() implies entry_le(
            #[trigger] t[i],
            #[trigger] t[j],
        ) by {}
    } else if entry_le(e, s[0]) {
        assert forall|i: int, j: int| 0 <= i < j < t.len() implies entry_le(
            #[trigger] t[i],
            #[trigger] t[j],
        ) by {
            if i == 0 {
                assert(t[j] == s[j - 1]);
                if j == 1 {
                } else {
                    assert(entry_le(s[0], s[j - 1]));
                    lemma_comparator_trans(e, s[0], s[j - 1]);
                }
            } else {
                assert(t[i] == s[i - 1]);
                assert(t[j] == s[j - 1]);
            }
        }
    } else {
        let rest = s.subrange(1, s.len() as int);
        assert forall|i: int, j: int| 0 <= i < j < rest.len() implies entry_le(
            #[trigger] rest[i],
            #[trigger] rest[j],
        ) by {
            assert(rest[i] == s[i + 1]);
            assert(rest[j] == s[j + 1]);
        }
        let u = insert_sorted(e, rest);
        lemma_insert_sorted_sorted(e, rest);
        lemma_insert_elems(e, rest);
        lemma_comparator_total(e, s[0]);
        assert(entry_le(s[0], e));
        assert forall|i: int, j: int| 0 <= i < j < t.len() implies entry_le(
            #[trigger] t[i],
            #[trigger] t[j],
        ) by {
            if i == 0 {
                assert(t[j] == u[j - 1]);
                if u[j - 1] == e {
                } else {
                    let k = choose|k: int| 0 <= k < rest.len() && rest[k] == u[j - 1];
                    assert(rest[k] == s[k + 1]);
                    assert(entry_le(s[0], s[k + 1]));
                }
            } else {
                assert(t[i] == u[i - 1]);
                assert(t[j] == u[j - 1]);
            }
        }
    }
}

/// Sorting preserves the names borne.
proof fn lemma_sort_name_in(s: Seq<EntryModel>, n: Seq<u8>)
    ensures
        name_in(sort_entries_spec(s), n) == name_in(s, n),
    decreases s.len(),
{
    if s.len() > 0 {
        let rest = s.subrange(1, s.len() as int);
        lemma_insert_name_in(s[0], sort_entries_spec(rest), n);
        lemma_sort_name_in(rest, n);
        lemma_name_in_cons(s, n);
    }
}

/// Sorting neither creates nor removes duplicate names.
proof fn lemma_sort_has_dup(s: Seq<EntryModel>)
    ensures
        has_dup_names(sort_entries_spec(s)) == has_dup_names(s),
    decreases s.len(),
{
    if s.len() == 0 {
    } else {
        let rest = s.subrange(1, s.len() as int);
        lemma_insert_has_dup(s[0], sort_entries_spec(rest));
        lemma_sort_has_dup(rest);
        lemma_sort_name_in(rest, s[0].name);
        lemma_has_dup_cons(s);
    }
}

/// Sorting preserves well-formedness of the entries.
proof fn lemma_sort_all_wf(s: Seq<EntryModel>)
    ensures
        all_entries_wf(sort_entries_spec(s)) == all_entries_wf(s),
    decreases s.len(),
{
    if s.len() == 0 {
    } else {
        let rest = s.subrange(1, s.len() as int);
        lemma_insert_all_wf(s[0], sort_entries_spec(rest));
        lemma_sort_all_wf(rest);
        lemma_all_wf_cons(s);
    }
}

/// The sorted sequence is in comparator order.
pub proof fn lemma_sort_sorted(s: Seq<EntryModel>)
    ensures
        entries_sorted(sort_entries_spec(s)),
    decreases s.len(),
{
    if s.len() > 0 {
        let rest = s.subrange(1, s.len() as int);
        lemma_sort_sorted(rest);
        lemma_insert_sorted_sorted(s[0], sort_entries_spec(rest));
    }
}

/// Byte order from position `i` on, after equal prefixes.
fn lex_le_from(a: &Vec<u8>, b: &Vec<u8>, i: usize) -> (r: bool)
    requires
        i <= a@.len(),
        i <= b@.len(),
    ensures
        r == lex_le(a@.skip(i as int), b@.skip(i as int)),
    decreases a@.len() - i,
{
    let ghost sa = a@.skip(i as int);
    let ghost sb = b@.skip(i as int);
    if i == a.len() {
        proof {
            assert(sa.len() == 0);
        }
        true
    } else if i == b.len() {
        proof {
            assert(sa.len() > 0 && sb.len() == 0);
        }
        false
    } else {
        proof {
            assert(sa[0] == a@[i as int]);
            assert(sb[0] == b@[i as int]);
        }
        let x = a[i];
        let y = b[i];
        if x < y {
            true
        } else if x > y {
            false
        } else {
            proof {
                assert(sa.subrange(1, sa.len() as int) =~= a@.skip(i + 1));
                assert(sb.subrange(1, sb.len() as int) =~= b@.skip(i + 1));
            }
            lex_le_from(a, b, i + 1)
        }
    }
}

/// The comparator key of an entry: its name, `/`-terminated for a
/// subdirectory.
fn entry_key(e: &DirectoryEntry) -> (k: Vec<u8>)
    ensures
        k@ == sort_key(e@),
{
    let mut k: Vec<u8> = Vec::new();
    push_bytes(&mut k, e.name.as_slice());
    if e.entry_type == EntryType::Directory {
        k.push(47);
    }
    proof {
        assert(k@ =~= sort_key(e@));
    }
    k
}

/// Whether `a` sorts at or before `b` under the git tree comparator.
pub fn entry_le_exec(a: &DirectoryEntry, b: &DirectoryEntry) -> (r: bool)
    ensures
        r == entry_le(a@, b@),
{
    let ka = entry_key(a);
    let kb = entry_key(b);
    let r = lex_le_from(&ka, &kb, 0);
    proof {
        assert(ka@.skip(0) =~= ka@);
        assert(kb@.skip(0) =~= kb@);
    }
    r
}

/// Whether two byte vectors hold the same bytes.
fn bytes_eq(a: &Vec<u8>, b: &Vec<u8>) -> (r: bool)
    ensures
        r == (a@ == b@),
{
    if a.len() != b.len() {
        proof {
            assert(a@ != b@);
        }
        return false;
    }
    let mut i: usize = 0;
    while i < a.len()
        invariant
            i <= a@.len(),
            a@.len() == b@.len(),
            forall|j: int| 0 <= j < i ==> a@[j] == b@[j],
        decreases a@.len() - i,
    {
        if a[i] != b[i] {
            return false;
        }
        i = i + 1;
    }
    proof {
        assert(a@ =~= b@);
    }
    true
}

/// Whether an entry is well-formed: a nonempty name free of `/` and
/// `NUL`, and a permission code agreeing with the kind.
fn entry_wf_exec(e: &DirectoryEntry) -> (r: bool)
    ensures
        r == entry_wf(e@),
{
    if e.name.len() == 0 {
        return false;
    }
    let mut i: usize = 0;
    while i < e.name.len()
        invariant
            i <= e.name@.len(),
            forall|j: int| 0 <= j < i ==> #[trigger] e.name@[j] != 47u8 && e.name@[j] != 0u8,
        decreases e.name@.len() - i,
    {
        let b = e.name[i];
        if b == 47 || b == 0 {
            return false;
        }
        i = i + 1;
    }
    let km = match e.entry_type {
        EntryType::File => e.permissions == Permissions::File || e.permissions
            == Permissions::Executable,
        EntryType::Symlink => e.permissions == Permissions::Symlink,
        EntryType::Directory => e.permissions == Permissions::Directory,
    };
    km
}

/// The position of an entry whose name repeats later, if any.
fn find_dup_name(entries: &Vec<DirectoryEntry>) -> (r: Option<usize>)
    ensures
        r matches Some(i) ==> i < entries@.len() && has_dup_names(models_of(entries@)),
        r is None ==> !has_dup_names(models_of(entries@)),
{
    let ghost m = models_of(entries@);
    let n = entries.len();
    let mut i: usize = 0;
    while i < n
        invariant
            i <= n,
            n == entries@.len(),
            m == models_of(entries@),
            forall|x: int, y: int|
                0 <= x < y < m.len() && x < i ==> (#[trigger] m[x]).name != (#[trigger] m[y]).name,
        decreases n - i,
    {
        let mut j: usize = i + 1;
        while j < n
            invariant
                i < j <= n,
                i < n,
                n == entries@.len(),
                m == models_of(entries@),
                forall|x: int, y: int|
                    0 <= x < y < m.len() && x < i ==> (#[trigger] m[x]).name != (
                    #[trigger] m[y]).name,
                forall|y: int| i < y < j ==> (#[trigger] m[y]).name != m[i as int].name,
            decreases n - j,
        {
            if bytes_eq(&entries[i].name, &entries[j].name) {
                proof {
                    assert(m[i as int].name == m[j as int].name);
                }
                return Some(i);
            }
            proof {
                assert(m[j as int].name != m[i as int].name);
            }
            j = j + 1;
        }
        i = i + 1;
    }
    proof {
        assert(!has_dup_names(m));
    }
    None
}

/// Inserts `e` at its comparator position in `v`, already in order.
fn insert_entry(e: DirectoryEntry, v: Vec<DirectoryEntry>) -> (r: Vec<DirectoryEntry>)
    ensures
        models_of(r@) == insert_sorted(e@, models_of(v@)),
    decreases v@.len(),
{
    let ghost gv = v@;
    if v.len() == 0 {
        let mut r = v;
        r.push(e);
        proof {
            assert(models_of(r@) =~= insert_sorted(e@, models_of(gv)));
        }
        r
    } else if entry_le_exec(&e, &v[0]) {
        proof {
            assert(models_of(gv)[0] == gv[0]@);
        }
        let mut r = v;
        r.insert(0, e);
        proof {
            assert(models_of(r@) =~= seq![e@] + models_of(gv));
        }
        r
    } else {
        proof {
            assert(models_of(gv)[0] == gv[0]@);
        }
        let mut v = v;
        let first = v.remove(0);
        proof {
            assert(models_of(v@) =~= models_of(gv).subrange(1, models_of(gv).len() as int));
        }
        let rec = insert_entry(e, v);
        let mut r = rec;
        r.insert(0, first);
        proof {
            assert(models_of(r@) =~= seq![first@] + models_of(rec@));
            assert(models_of(r@) =~= insert_sorted(e@, models_of(gv)));
        }
        r
    }
}

/// Sorts entries into comparator order by insertion.
fn sort_entries_exec(v: Vec<DirectoryEntry>) -> (r: Vec<DirectoryEntry>)
    ensures
        models_of(r@) == sort_entries_spec(models_of(v@)),
    decreases v@.len(),
{
    let ghost gv = v@;
    if v.len() == 0 {
        proof {
            assert(models_of(v@) =~= sort_entries_spec(models_of(gv)));
        }
        v
    } else {
        proof {
            assert(models_of(gv)[0] == gv[0]@);
        }
        let mut v = v;
        let first = v.remove(0);
        proof {
            assert(models_of(v@) =~= models_of(gv).subrange(1, models_of(gv).len() as int));
        }
        let rest = sort_entries_exec(v);
        let r = insert_entry(first, rest);
        proof {
            assert(models_of(r@) == sort_entries_spec(models_of(gv)));
        }
        r
    }
}

impl Directory {
    /// Builds a directory object from entries in any order: rejects an
    /// entry with an empty name, a `/` or `NUL` in the name, or a
    /// permission code at odds with its kind (`InvalidInput`); rejects
    /// two entries of one name (`DuplicateEntry`); and sorts the rest
    /// by the git tree comparator.  The digest is not yet computed and
    /// no path is attached.
    pub fn from_entries(entries: Vec<DirectoryEntry>) -> (r: Result<Directory, SwhidError>)
        ensures
            all_entries_wf(models_of(entries@)) && !has_dup_names(models_of(entries@)) ==> r is Ok,
            r matches Ok(d) ==> {
                &&& all_entries_wf(models_of(entries@))
                &&& !has_dup_names(models_of(entries@))
                &&& d.models() == sort_entries_spec(models_of(entries@))
                &&& d.wf()
                &&& d.hash is None
                &&& d.path is None
            },
            r matches Err(e) ==> {
                &&& (e is InvalidInput <==> !all_entries_wf(models_of(entries@)))
                &&& (e is DuplicateEntry <==> all_entries_wf(models_of(entries@)) && has_dup_names(
                    models_of(entries@),
                ))
                &&& (e is InvalidInput || e is DuplicateEntry)
            },
    {
        let ghost m = models_of(entries@);
        let mut i: usize = 0;
        while i < entries.len()
            invariant
                i <= entries@.len(),
                m == models_of(entries@),
                forall|x: int| 0 <= x < i ==> entry_wf(#[trigger] m[x]),
            decreases entries@.len() - i,
        {
            if !entry_wf_exec(&entries[i]) {
                proof {
                    assert(!entry_wf(m[i as int]));
                }
                return Err(SwhidError::InvalidInput(lossy_utf8(entries[i].name.as_slice())));
            }
            i = i + 1;
        }
        proof {
            assert(all_entries_wf(m));
        }
        if let Some(d) = find_dup_name(&entries) {
            return Err(SwhidError::DuplicateEntry(lossy_utf8(entries[d].name.as_slice())));
        }
        let sorted = sort_entries_exec(entries);
        proof {
            lemma_sort_all_wf(m);
            lemma_sort_has_dup(m);
            lemma_sort_sorted(m);
        }
        Ok(Directory { entries: sorted, hash: None, path: None })
    }

    /// Whether a name is excluded: its text, decoded lossily, matches
    /// at least one pattern.
    pub fn should_exclude(name: &[u8], patterns: &[String]) -> (r: bool)
        ensures
            r == exists|k: int|
                0 <= k < patterns@.len() && glob_match_spec(
                    (#[trigger] patterns@[k])@,
                    lossy_of(name@),
                ),
    {
        let text = lossy_utf8(name);
        should_exclude_str(text.as_str(), patterns)
    }
}

/// What `String::from_utf8_lossy` decodes from a byte sequence: a
/// fixed function of the bytes alone.
pub uninterp spec fn lossy_of(bytes: Seq<u8>) -> Seq<char>;

/// Relies on `String::from_utf8_lossy`: the text decoded from the
/// bytes, with invalid sequences replaced; a function of the bytes
/// alone, and the bytes themselves when they are ASCII.
#[verifier::external_body]
fn lossy_utf8(bytes: &[u8]) -> (r: String)
    ensures
        r@ == lossy_of(bytes@),
        (forall|i: int| 0 <= i < bytes@.len() ==> bytes@[i] < 128) ==> r@ == bytes@.map_values(
            |b: u8| b as char,
        ),
{
    String::from_utf8_lossy(bytes).into_owned()
}

/// Whether the name, as text, matches at least one exclusion pattern.
pub fn should_exclude_str(name: &str, patterns: &[String]) -> (r: bool)
    ensures
        r == exists|k: int|
            0 <= k < patterns@.len() && glob_match_spec((#[trigger] patterns@[k])@, name@),
{
    let mut i: usize = 0;
    while i < patterns.len()
        invariant
            i <= patterns@.len(),
            forall|k: int| 0 <= k < i ==> !glob_match_spec((#[trigger] patterns@[k])@, name@),
        decreases patterns@.len() - i,
    {
        if glob_match(patterns[i].as_str(), name) {
            return true;
        }
        i = i + 1;
    }
    false
}


/// Rename independence: the digest is a function of the entries alone.
/// Two directory objects holding the same entries — wherever on disk
/// they were read from, whatever their `path` fields say — have the
/// same tree digest.
pub proof fn lemma_rename_independence(d1: Directory, d2: Directory)
    requires
        d1.entries@ == d2.entries@,
    ensures
        tree_digest(d1.models()) == tree_digest(d2.models()),
{
}

} // verus!
