//! Git-object hashing: the `"<type> <decimal-length>\0"` header and the
//! collision-hardened SHA-1 digest over `header ‖ payload`.

use vstd::prelude::*;

verus! {

/// The digest that the collision-hardened SHA-1 of `sha1_checked`
/// computes for a byte sequence: a fixed, 20-byte function of the input
/// bytes alone, equal to standard SHA-1 on every input free of known
/// collision disturbance vectors.
pub uninterp spec fn sha1_of(data: Seq<u8>) -> Seq<u8>;

/// The ASCII decimal digits of `n`, with no leading zeros (the single
/// byte `'0'` when `n` is zero).
pub open spec fn dec_of(n: nat) -> Seq<u8>
    decreases n,
{
    if n < 10 {
        seq![(48 + n) as u8]
    } else {
        dec_of(n / 10).push((48 + n % 10) as u8)
    }
}

/// A byte sequence of ASCII characters, written from the characters.
pub open spec fn ascii_bytes(s: Seq<char>) -> Seq<u8> {
    s.map_values(|c: char| c as u8)
}

/// The git object header `type ‖ " " ‖ dec(len) ‖ NUL`.
pub open spec fn header_bytes(ty: Seq<u8>, len: nat) -> Seq<u8> {
    ty + seq![32u8] + dec_of(len) + seq![0u8]
}

/// The header of a blob object: `"blob " ‖ dec(len) ‖ NUL`.
pub open spec fn blob_header(len: nat) -> Seq<u8> {
    header_bytes(seq![98u8, 108u8, 111u8, 98u8], len)
}

/// The header of a tree object: `"tree " ‖ dec(len) ‖ NUL`.
pub open spec fn tree_header(len: nat) -> Seq<u8> {
    header_bytes(seq![116u8, 114u8, 101u8, 101u8], len)
}

/// The git-blob-style digest of a byte buffer: SHA-1 over the blob
/// header followed by the bytes themselves.
pub open spec fn blob_digest(data: Seq<u8>) -> Seq<u8> {
    sha1_of(blob_header(data.len()) + data)
}

/// Collision-hardened SHA-1 of the input.
///
/// Relies on `sha1_checked::Sha1` (`new`, `update`, `finalize`): the
/// 20-byte collision-hardened SHA-1 digest, computed from the input
/// bytes alone.
#[verifier::external_body]
pub fn sha1_hash(data: &[u8]) -> (r: [u8; 20])
    ensures
        r@ == sha1_of(data@),
{
    let mut hasher = sha1_checked::Sha1::new();
    sha1_checked::Digest::update(&mut hasher, data);
    sha1_checked::Digest::finalize(hasher).into()
}

/// Appends every byte of `src` to `dst`.
pub(crate) fn push_bytes(dst: &mut Vec<u8>, src: &[u8])
    ensures
        final(dst)@ == old(dst)@ + src@,
{
    let mut i: usize = 0;
    while i < src.len()
        invariant
            i <= src@.len(),
            dst@ == old(dst)@ + src@.subrange(0, i as int),
        decreases src@.len() - i,
    {
        dst.push(src[i]);
        proof {
            assert(dst@ =~= old(dst)@ + src@.subrange(0, i + 1 as int));
        }
        i = i + 1;
    }
    proof {
        assert(dst@ =~= old(dst)@ + src@);
    }
}

/// The ASCII decimal digits of `n`, no leading zeros.
fn dec_bytes(n: usize) -> (r: Vec<u8>)
    ensures
        r@ == dec_of(n as nat),
    decreases n,
{
    if n < 10 {
        let mut v: Vec<u8> = Vec::new();
        v.push(48 + n as u8);
        proof {
            assert(v@ =~= dec_of(n as nat));
        }
        v
    } else {
        let mut v = dec_bytes(n / 10);
        v.push(48 + (n % 10) as u8);
        proof {
            assert(v@ =~= dec_of(n as nat));
        }
        v
    }
}

/// Formats the git object header `"<type> <decimal-length>\0"` as bytes.
pub fn git_object_header(git_type: &str, length: usize) -> (r: Vec<u8>)
    requires
        git_type.is_ascii(),
    ensures
        r@ == header_bytes(ascii_bytes(git_type@), length as nat),
{
    proof {
        broadcast use vstd::string::is_ascii_spec_bytes;

    }
    let type_bytes = git_type.as_bytes();
    proof {
        assert(type_bytes@ =~= ascii_bytes(git_type@));
    }
    let mut r: Vec<u8> = Vec::new();
    push_bytes(&mut r, type_bytes);
    r.push(32);
    let digits = dec_bytes(length);
    push_bytes(&mut r, digits.as_slice());
    r.push(0);
    proof {
        assert(r@ =~= header_bytes(ascii_bytes(git_type@), length as nat));
    }
    r
}

/// Hashes a git object: collision-hardened SHA-1 over
/// `"<type> <len>\0" ‖ data`.
pub fn hash_git_object(git_type: &str, data: &[u8]) -> (r: [u8; 20])
    requires
        git_type.is_ascii(),
    ensures
        r@ == sha1_of(header_bytes(ascii_bytes(git_type@), data@.len()) + data@),
{
    let mut buf = git_object_header(git_type, data.len());
    push_bytes(&mut buf, data);
    let r = sha1_hash(buf.as_slice());
    r
}

/// Git-blob-style digest of a buffer: SHA-1 over
/// `"blob <len>\0" ‖ data`.
pub fn sha1_git_hash(data: &[u8]) -> (r: [u8; 20])
    ensures
        r@ == blob_digest(data@),
{
    proof {
        reveal_strlit("blob");
        assert forall|i: int| 0 <= i < "blob"@.len() implies ("blob"@[i] as int) < 128 by {}
        assert(ascii_bytes("blob"@) =~= seq![98u8, 108u8, 111u8, 98u8]);
    }
    let r = hash_git_object("blob", data);
    r
}

} // verus!
