//! The identifier grammar `swh:1:<kind>:<hex40>`: parsing, rendering,
//! and equality.

use vstd::prelude::*;
use crate::error::SwhidError;

verus! {

/// The closed set of object kinds that the identifier grammar names.
/// This library constructs only `Content` and `Directory`; the other
/// codes are parsed and rendered but never built from disk.
#[derive(Debug, Clone, Copy, PartialEq, Eq, Structural)]
pub enum ObjectType {
    Content,
    Directory,
    Revision,
    Release,
    Snapshot,
}

impl ObjectType {
    /// The three-letter code of this kind in the canonical string form.
    pub open spec fn code_spec(self) -> Seq<char> {
        match self {
            ObjectType::Content => seq!['c', 'n', 't'],
            ObjectType::Directory => seq!['d', 'i', 'r'],
            ObjectType::Revision => seq!['r', 'e', 'v'],
            ObjectType::Release => seq!['r', 'e', 'l'],
            ObjectType::Snapshot => seq!['s', 'n', 'p'],
        }
    }

    /// The three-letter code as a string slice.
    pub fn code(self) -> (r: &'static str)
        ensures
            r@ == self.code_spec(),
    {
        match self {
            ObjectType::Content => {
                proof {
                    reveal_strlit("cnt");
                    assert("cnt"@ =~= self.code_spec());
                }
                "cnt"
            },
            ObjectType::Directory => {
                proof {
                    reveal_strlit("dir");
                    assert("dir"@ =~= self.code_spec());
                }
                "dir"
            },
            ObjectType::Revision => {
                proof {
                    reveal_strlit("rev");
                    assert("rev"@ =~= self.code_spec());
                }
                "rev"
            },
            ObjectType::Release => {
                proof {
                    reveal_strlit("rel");
                    assert("rel"@ =~= self.code_spec());
                }
                "rel"
            },
            ObjectType::Snapshot => {
                proof {
                    reveal_strlit("snp");
                    assert("snp"@ =~= self.code_spec());
                }
                "snp"
            },
        }
    }
}

/// The kind whose code is `k`, if any.
pub open spec fn kind_of_code(k: Seq<char>) -> Option<ObjectType> {
    if k == seq!['c', 'n', 't'] {
        Some(ObjectType::Content)
    } else if k == seq!['d', 'i', 'r'] {
        Some(ObjectType::Directory)
    } else if k == seq!['r', 'e', 'v'] {
        Some(ObjectType::Revision)
    } else if k == seq!['r', 'e', 'l'] {
        Some(ObjectType::Release)
    } else if k == seq!['s', 'n', 'p'] {
        Some(ObjectType::Snapshot)
    } else {
        None
    }
}

/// The value of a lowercase hex digit, or -1 for any other character.
pub open spec fn hex_val(c: char) -> int {
    if c == '0' {
        0
    } else if c == '1' {
        1
    } else if c == '2' {
        2
    } else if c == '3' {
        3
    } else if c == '4' {
        4
    } else if c == '5' {
        5
    } else if c == '6' {
        6
    } else if c == '7' {
        7
    } else if c == '8' {
        8
    } else if c == '9' {
        9
    } else if c == 'a' {
        10
    } else if c == 'b' {
        11
    } else if c == 'c' {
        12
    } else if c == 'd' {
        13
    } else if c == 'e' {
        14
    } else if c == 'f' {
        15
    } else {
        -1
    }
}

/// Whether `c` is a lowercase hex digit.
pub open spec fn is_hex_lower(c: char) -> bool {
    hex_val(c) >= 0
}

/// The lowercase hex digit of a value below 16.
pub open spec fn hex_char_of(v: int) -> char {
    if v == 0 {
        '0'
    } else if v == 1 {
        '1'
    } else if v == 2 {
        '2'
    } else if v == 3 {
        '3'
    } else if v == 4 {
        '4'
    } else if v == 5 {
        '5'
    } else if v == 6 {
        '6'
    } else if v == 7 {
        '7'
    } else if v == 8 {
        '8'
    } else if v == 9 {
        '9'
    } else if v == 10 {
        'a'
    } else if v == 11 {
        'b'
    } else if v == 12 {
        'c'
    } else if v == 13 {
        'd'
    } else if v == 14 {
        'e'
    } else {
        'f'
    }
}

/// Two lowercase hex characters for each byte, high nibble first.
pub open spec fn hex_of(bytes: Seq<u8>) -> Seq<char>
    decreases bytes.len(),
{
    if bytes.len() == 0 {
        Seq::empty()
    } else {
        seq![hex_char_of(bytes[0] as int / 16), hex_char_of(bytes[0] as int % 16)] + hex_of(
            bytes.subrange(1, bytes.len() as int),
        )
    }
}

/// The bytes written by a sequence of hex characters, two per byte.
/// Meaningful when the length is even and every character is a
/// lowercase hex digit.
pub open spec fn hex_bytes_of(s: Seq<char>) -> Seq<u8>
    decreases s.len(),
{
    if s.len() < 2 {
        Seq::empty()
    } else {
        seq![(hex_val(s[0]) * 16 + hex_val(s[1])) as u8] + hex_bytes_of(
            s.subrange(2, s.len() as int),
        )
    }
}

/// The canonical string form of an identifier with kind `t` and 20-byte
/// digest `digest`: `swh:1:<code>:<hex40>`.
pub open spec fn render_chars(t: ObjectType, digest: Seq<u8>) -> Seq<char> {
    seq!['s', 'w', 'h', ':', '1', ':'] + t.code_spec() + seq![':'] + hex_of(digest)
}

/// The first index at or after `i` holding `c`, or the length if none.
pub open spec fn find_from(s: Seq<char>, i: int, c: char) -> int
    decreases s.len() - i,
{
    if i < 0 || i >= s.len() {
        s.len() as int
    } else if s[i] == c {
        i
    } else {
        find_from(s, i + 1, c)
    }
}

/// Index of the first colon.
pub open spec fn colon1(s: Seq<char>) -> int {
    find_from(s, 0, ':')
}

/// Index of the second colon.
pub open spec fn colon2(s: Seq<char>) -> int {
    find_from(s, colon1(s) + 1, ':')
}

/// Index of the third colon.
pub open spec fn colon3(s: Seq<char>) -> int {
    find_from(s, colon2(s) + 1, ':')
}

/// Whether splitting on `:` yields exactly four fields.
pub open spec fn has_three_colons(s: Seq<char>) -> bool {
    colon3(s) < s.len() && find_from(s, colon3(s) + 1, ':') == s.len()
}

/// The field before the first colon.
pub open spec fn ns_field(s: Seq<char>) -> Seq<char> {
    s.subrange(0, colon1(s))
}

/// The field between the first and second colons.
pub open spec fn ver_field(s: Seq<char>) -> Seq<char> {
    s.subrange(colon1(s) + 1, colon2(s))
}

/// The field between the second and third colons.
pub open spec fn kind_field(s: Seq<char>) -> Seq<char> {
    s.subrange(colon2(s) + 1, colon3(s))
}

/// The field after the third colon.
pub open spec fn hex_field(s: Seq<char>) -> Seq<char> {
    s.subrange(colon3(s) + 1, s.len() as int)
}

/// The namespace field is the literal `swh`.
pub open spec fn ns_ok(s: Seq<char>) -> bool {
    ns_field(s) == seq!['s', 'w', 'h']
}

/// The version field is the literal `1`.
pub open spec fn ver_ok(s: Seq<char>) -> bool {
    ver_field(s) == seq!['1']
}

/// The kind field is one of the five codes.
pub open spec fn kind_ok(s: Seq<char>) -> bool {
    kind_of_code(kind_field(s)) is Some
}

/// The digest field has exactly 40 characters.
pub open spec fn hexlen_ok(s: Seq<char>) -> bool {
    hex_field(s).len() == 40
}

/// Every character of the digest field is a lowercase hex digit.
pub open spec fn hex_ok(s: Seq<char>) -> bool {
    forall|i: int| 0 <= i < hex_field(s).len() ==> is_hex_lower(#[trigger] hex_field(s)[i])
}

/// The whole grammar: four fields, `swh`, `1`, a known code, and forty
/// lowercase hex digits.
pub open spec fn valid_swhid_chars(s: Seq<char>) -> bool {
    has_three_colons(s) && ns_ok(s) && ver_ok(s) && kind_ok(s) && hexlen_ok(s) && hex_ok(s)
}


/// Which parse error a malformed identifier string earns: the first
/// field that fails, in grammar order.
pub open spec fn parse_error_matches(e: SwhidError, s: Seq<char>) -> bool {
    &&& (e is InvalidFormat <==> !has_three_colons(s))
    &&& (e is InvalidNamespace <==> has_three_colons(s) && !ns_ok(s))
    &&& (e is InvalidVersion <==> has_three_colons(s) && ns_ok(s) && !ver_ok(s))
    &&& (e is InvalidObjectType <==> has_three_colons(s) && ns_ok(s) && ver_ok(s) && !kind_ok(s))
    &&& (e is InvalidHashLength <==> has_three_colons(s) && ns_ok(s) && ver_ok(s) && kind_ok(s)
        && !hexlen_ok(s))
    &&& (e is InvalidHash <==> has_three_colons(s) && ns_ok(s) && ver_ok(s) && kind_ok(s)
        && hexlen_ok(s) && !hex_ok(s))
}

/// A persistent identifier: an object kind and a 20-byte digest, at
/// grammar version 1.
#[derive(Debug, Clone, Copy)]
pub struct Swhid {
    pub object_type: ObjectType,
    pub hash: [u8; 20],
}

impl PartialEq for Swhid {
    fn eq(&self, other: &Self) -> (r: bool) {
        if !(self.object_type == other.object_type) {
            return false;
        }
        let mut i: usize = 0;
        while i < 20
            invariant
                i <= 20,
                self.object_type == other.object_type,
                forall|j: int| 0 <= j < i ==> self.hash@[j] == other.hash@[j],
            decreases 20 - i,
        {
            if self.hash[i] != other.hash[i] {
                return false;
            }
            i = i + 1;
        }
        proof {
            assert(self.hash@ =~= other.hash@);
        }
        true
    }
}

impl vstd::std_specs::cmp::PartialEqSpecImpl for Swhid {
    open spec fn obeys_eq_spec() -> bool {
        true
    }

    open spec fn eq_spec(&self, other: &Swhid) -> bool {
        self.object_type == other.object_type && self.hash@ == other.hash@
    }
}

impl Eq for Swhid {

}

impl Swhid {
    /// Builds an identifier from a kind and a 20-byte digest.
    pub fn new(object_type: ObjectType, hash: [u8; 20]) -> (r: Self)
        ensures
            r.object_type == object_type,
            r.hash == hash,
    {
        Swhid { object_type, hash }
    }

    /// The kind of the identified object.
    pub fn object_type(&self) -> (r: ObjectType)
        ensures
            r == self.object_type,
    {
        self.object_type
    }

    /// The 20-byte digest.
    pub fn hash(&self) -> (r: &[u8; 20])
        ensures
            r@ == self.hash@,
    {
        &self.hash
    }
}

/// The lowercase hex digit of `v` as a one-character string.
fn hex_char_str(v: u8) -> (r: &'static str)
    requires
        v < 16,
    ensures
        r@ == seq![hex_char_of(v as int)],
{
    match v {
        0 => {
            proof {
                reveal_strlit("0");
                assert("0"@ =~= seq![hex_char_of(0)]);
            }
            "0"
        },
        1 => {
            proof {
                reveal_strlit("1");
                assert("1"@ =~= seq![hex_char_of(1)]);
            }
            "1"
        },
        2 => {
            proof {
                reveal_strlit("2");
                assert("2"@ =~= seq![hex_char_of(2)]);
            }
            "2"
        },
        3 => {
            proof {
                reveal_strlit("3");
                assert("3"@ =~= seq![hex_char_of(3)]);
            }
            "3"
        },
        4 => {
            proof {
                reveal_strlit("4");
                assert("4"@ =~= seq![hex_char_of(4)]);
            }
            "4"
        },
        5 => {
            proof {
                reveal_strlit("5");
                assert("5"@ =~= seq![hex_char_of(5)]);
            }
            "5"
        },
        6 => {
            proof {
                reveal_strlit("6");
                assert("6"@ =~= seq![hex_char_of(6)]);
            }
            "6"
        },
        7 => {
            proof {
                reveal_strlit("7");
                assert("7"@ =~= seq![hex_char_of(7)]);
            }
            "7"
        },
        8 => {
            proof {
                reveal_strlit("8");
                assert("8"@ =~= seq![hex_char_of(8)]);
            }
            "8"
        },
        9 => {
            proof {
                reveal_strlit("9");
                assert("9"@ =~= seq![hex_char_of(9)]);
            }
            "9"
        },
        10 => {
            proof {
                reveal_strlit("a");
                assert("a"@ =~= seq![hex_char_of(10)]);
            }
            "a"
        },
        11 => {
            proof {
                reveal_strlit("b");
                assert("b"@ =~= seq![hex_char_of(11)]);
            }
            "b"
        },
        12 => {
            proof {
                reveal_strlit("c");
                assert("c"@ =~= seq![hex_char_of(12)]);
            }
            "c"
        },
        13 => {
            proof {
                reveal_strlit("d");
                assert("d"@ =~= seq![hex_char_of(13)]);
            }
            "d"
        },
        14 => {
            proof {
                reveal_strlit("e");
                assert("e"@ =~= seq![hex_char_of(14)]);
            }
            "e"
        },
        _ => {
            proof {
                reveal_strlit("f");
                assert("f"@ =~= seq![hex_char_of(15)]);
            }
            "f"
        },
    }
}

/// Appending one byte extends the hex rendering by its two digits.
proof fn lemma_hex_of_push(bytes: Seq<u8>, b: u8)
    ensures
        hex_of(bytes.push(b)) == hex_of(bytes) + seq![
            hex_char_of(b as int / 16),
            hex_char_of(b as int % 16),
        ],
    decreases bytes.len(),
{
    if bytes.len() == 0 {
        let t = bytes.push(b);
        assert(t[0] == b);
        assert(t.subrange(1, 1) =~= Seq::<u8>::empty());
        assert(hex_of(t.subrange(1, 1)) == Seq::<char>::empty());
        assert(hex_of(t) =~= seq![hex_char_of(b as int / 16), hex_char_of(b as int % 16)]);
        assert(hex_of(bytes) =~= Seq::<char>::empty());
    } else {
        assert(bytes.push(b).subrange(1, bytes.len() as int + 1) =~= bytes.subrange(
            1,
            bytes.len() as int,
        ).push(b));
        lemma_hex_of_push(bytes.subrange(1, bytes.len() as int), b);
        assert(hex_of(bytes.push(b)) =~= hex_of(bytes) + seq![
            hex_char_of(b as int / 16),
            hex_char_of(b as int % 16),
        ]);
    }
}

impl Swhid {
    /// Renders the canonical string form `swh:1:<code>:<hex40>`.
    pub fn to_string(&self) -> (r: String)
        ensures
            r@ == render_chars(self.object_type, self.hash@),
    {
        let mut s = String::new();
        s.append("swh:1:");
        s.append(self.object_type.code());
        s.append(":");
        proof {
            reveal_strlit("swh:1:");
            reveal_strlit(":");
            assert(s@ =~= seq!['s', 'w', 'h', ':', '1', ':'] + self.object_type.code_spec()
                + seq![':']);
        }
        let ghost prefix: Seq<char> = s@;
        let mut i: usize = 0;
        while i < 20
            invariant
                i <= 20,
                s@ == prefix + hex_of(self.hash@.subrange(0, i as int)),
            decreases 20 - i,
        {
            let b = self.hash[i];
            s.append(hex_char_str(b / 16));
            s.append(hex_char_str(b % 16));
            proof {
                assert(self.hash@.subrange(0, i + 1) =~= self.hash@.subrange(0, i as int).push(
                    self.hash@[i as int],
                ));
                lemma_hex_of_push(self.hash@.subrange(0, i as int), self.hash@[i as int]);
                assert(s@ =~= prefix + hex_of(self.hash@.subrange(0, i + 1)));
            }
            i = i + 1;
        }
        proof {
            assert(self.hash@.subrange(0, 20) =~= self.hash@);
            assert(s@ =~= render_chars(self.object_type, self.hash@));
        }
        s
    }
}

/// `find_from` stays in bounds, lands on `c` when it is short of the
/// length, and skips no earlier occurrence.
pub proof fn lemma_find_from(s: Seq<char>, i: int, c: char)
    requires
        0 <= i <= s.len(),
    ensures
        i <= find_from(s, i, c) <= s.len(),
        find_from(s, i, c) < s.len() ==> s[find_from(s, i, c)] == c,
        forall|j: int| i <= j < find_from(s, i, c) ==> s[j] != c,
    decreases s.len() - i,
{
    if i < s.len() && s[i] != c {
        lemma_find_from(s, i + 1, c);
    }
}

/// The value of a lowercase hex digit character, if it is one.
fn hex_val_exec(c: char) -> (r: Option<u8>)
    ensures
        r matches Some(v) ==> is_hex_lower(c) && v as int == hex_val(c) && v < 16,
        r is None ==> !is_hex_lower(c),
{
    match c {
        '0' => Some(0),
        '1' => Some(1),
        '2' => Some(2),
        '3' => Some(3),
        '4' => Some(4),
        '5' => Some(5),
        '6' => Some(6),
        '7' => Some(7),
        '8' => Some(8),
        '9' => Some(9),
        'a' => Some(10),
        'b' => Some(11),
        'c' => Some(12),
        'd' => Some(13),
        'e' => Some(14),
        'f' => Some(15),
        _ => None,
    }
}

/// The first position of `c` in `s` at or after `i`, or the length.
pub(crate) fn find_char(s: &str, i: usize, c: char) -> (r: usize)
    requires
        i <= s@.len(),
    ensures
        r as int == find_from(s@, i as int, c),
        i <= r <= s@.len(),
    decreases s@.len() - i,
{
    if i == s.unicode_len() {
        i
    } else if s.get_char(i) == c {
        i
    } else {
        find_char(s, i + 1, c)
    }
}

/// Two more hex characters extend the decoded bytes by one byte.
proof fn lemma_hex_bytes_snoc(t: Seq<char>, a: char, b: char)
    requires
        t.len() % 2 == 0,
    ensures
        hex_bytes_of(t + seq![a, b]) == hex_bytes_of(t).push(
            (hex_val(a) * 16 + hex_val(b)) as u8,
        ),
    decreases t.len(),
{
    let u = t + seq![a, b];
    if t.len() == 0 {
        reveal_with_fuel(hex_bytes_of, 2);
        assert(u =~= seq![a, b]);
        assert(u[0] == a && u[1] == b);
        assert(u.subrange(2, 2) =~= Seq::<char>::empty());
        assert(hex_bytes_of(u.subrange(2, 2)) == Seq::<u8>::empty());
        assert(hex_bytes_of(u) =~= hex_bytes_of(t).push((hex_val(a) * 16 + hex_val(b)) as u8));
    } else {
        assert(u.len() == t.len() + 2);
        assert(u[0] == t[0] && u[1] == t[1]);
        assert(u.subrange(2, u.len() as int) =~= t.subrange(2, t.len() as int) + seq![a, b]);
        lemma_hex_bytes_snoc(t.subrange(2, t.len() as int), a, b);
        assert(hex_bytes_of(u) =~= hex_bytes_of(t).push((hex_val(a) * 16 + hex_val(b)) as u8));
    }
}

impl Swhid {
    /// Parses the canonical form `swh:1:<kind>:<hex40>`, strictly: no
    /// surrounding whitespace, lowercase hex only.  Returns the
    /// identifier exactly when the string fits the grammar, and
    /// otherwise the error of the first field that fails: four fields
    /// (`InvalidFormat`), namespace `swh` (`InvalidNamespace`), version
    /// `1` (`InvalidVersion`), a known kind code (`InvalidObjectType`),
    /// digest length 40 (`InvalidHashLength`), lowercase hex digits
    /// (`InvalidHash`).
    #[verifier::loop_isolation(false)]
    pub fn from_string(s: &str) -> (r: Result<Swhid, SwhidError>)
        ensures
            valid_swhid_chars(s@) ==> r is Ok,
            r matches Ok(id) ==> valid_swhid_chars(s@) && Some(id.object_type) == kind_of_code(
                kind_field(s@),
            ) && id.hash@ == hex_bytes_of(hex_field(s@)),
            r matches Err(e) ==> !valid_swhid_chars(s@) && parse_error_matches(e, s@),
    {
        let n = s.unicode_len();
        let c1 = find_char(s, 0, ':');
        if c1 == n {
            return Err(SwhidError::InvalidFormat(s.to_owned()));
        }
        let c2 = find_char(s, c1 + 1, ':');
        if c2 == n {
            return Err(SwhidError::InvalidFormat(s.to_owned()));
        }
        let c3 = find_char(s, c2 + 1, ':');
        if c3 == n {
            return Err(SwhidError::InvalidFormat(s.to_owned()));
        }
        let c4 = find_char(s, c3 + 1, ':');
        if c4 != n {
            return Err(SwhidError::InvalidFormat(s.to_owned()));
        }
        // namespace: the literal `swh`
        let ns_good = c1 == 3 && s.get_char(0) == 's' && s.get_char(1) == 'w' && s.get_char(2)
            == 'h';
        proof {
            if c1 == 3 {
                assert(ns_field(s@).len() == 3);
                assert(ns_field(s@)[0] == s@[0]);
                assert(ns_field(s@)[1] == s@[1]);
                assert(ns_field(s@)[2] == s@[2]);
                if s@[0] == 's' && s@[1] == 'w' && s@[2] == 'h' {
                    assert(ns_field(s@) =~= seq!['s', 'w', 'h']);
                }
            } else {
                assert(ns_field(s@).len() != 3);
            }
        }
        if !ns_good {
            return Err(SwhidError::InvalidNamespace(s.to_owned()));
        }
        // version: the literal `1`
        let ver_good = c2 == c1 + 2 && s.get_char(c1 + 1) == '1';
        proof {
            if c2 == c1 + 2 {
                assert(ver_field(s@).len() == 1);
                assert(ver_field(s@)[0] == s@[c1 + 1]);
                if s@[c1 + 1 as int] == '1' {
                    assert(ver_field(s@) =~= seq!['1']);
                }
            } else {
                assert(ver_field(s@).len() != 1);
            }
        }
        if !ver_good {
            return Err(SwhidError::InvalidVersion(s.to_owned()));
        }
        // kind: one of the five codes
        let kind: Option<ObjectType> = if c3 == c2 + 4 {
            let k0 = s.get_char(c2 + 1);
            let k1 = s.get_char(c2 + 2);
            let k2 = s.get_char(c2 + 3);
            proof {
                assert(kind_field(s@).len() == 3);
                assert(kind_field(s@)[0] == s@[c2 + 1]);
                assert(kind_field(s@)[1] == s@[c2 + 2]);
                assert(kind_field(s@)[2] == s@[c2 + 3]);
                assert(kind_field(s@) =~= seq![s@[c2 + 1], s@[c2 + 2], s@[c2 + 3]]);
            }
            if k0 == 'c' && k1 == 'n' && k2 == 't' {
                proof {
                    assert(kind_field(s@) =~= seq!['c', 'n', 't']);
                }
                Some(ObjectType::Content)
            } else if k0 == 'd' && k1 == 'i' && k2 == 'r' {
                proof {
                    assert(kind_field(s@) =~= seq!['d', 'i', 'r']);
                }
                Some(ObjectType::Directory)
            } else if k0 == 'r' && k1 == 'e' && k2 == 'v' {
                proof {
                    assert(kind_field(s@) =~= seq!['r', 'e', 'v']);
                }
                Some(ObjectType::Revision)
            } else if k0 == 'r' && k1 == 'e' && k2 == 'l' {
                proof {
                    assert(kind_field(s@) =~= seq!['r', 'e', 'l']);
                }
                Some(ObjectType::Release)
            } else if k0 == 's' && k1 == 'n' && k2 == 'p' {
                proof {
                    assert(kind_field(s@) =~= seq!['s', 'n', 'p']);
                }
                Some(ObjectType::Snapshot)
            } else {
                None
            }
        } else {
            proof {
                assert(kind_field(s@).len() != 3);
            }
            None
        };
        let object_type = match kind {
            Some(t) => t,
            None => {
                return Err(SwhidError::InvalidObjectType(s.to_owned()));
            },
        };
        // digest: forty lowercase hex characters
        let hex_len = n - (c3 + 1);
        proof {
            assert(hex_field(s@).len() == hex_len);
        }
        if hex_len != 40 {
            return Err(SwhidError::InvalidHashLength(hex_len));
        }
        let mut digest: [u8; 20] = [0;20];
        let mut k: usize = 0;
        while k < 20
            invariant
                k <= 20,
                forall|j: int| 0 <= j < 2 * k ==> is_hex_lower(#[trigger] hex_field(s@)[j]),
                digest@.subrange(0, k as int) == hex_bytes_of(hex_field(s@).subrange(0, 2 * k)),
            decreases 20 - k,
        {
            let a = s.get_char(c3 + 1 + 2 * k);
            let b = s.get_char(c3 + 2 + 2 * k);
            proof {
                assert(hex_field(s@)[2 * k] == s@[c3 + 1 + 2 * k]);
                assert(hex_field(s@)[2 * k + 1] == s@[c3 + 2 + 2 * k]);
            }
            let va = match hex_val_exec(a) {
                Some(v) => v,
                None => {
                    return Err(SwhidError::InvalidHash(s.to_owned()));
                },
            };
            let vb = match hex_val_exec(b) {
                Some(v) => v,
                None => {
                    return Err(SwhidError::InvalidHash(s.to_owned()));
                },
            };
            let ghost dpre = digest@;
            digest[k] = va * 16 + vb;
            proof {
                assert(hex_field(s@).subrange(0, 2 * (k + 1)) =~= hex_field(s@).subrange(0, 2 * k)
                    + seq![hex_field(s@)[2 * k], hex_field(s@)[2 * k + 1]]);
                assert(hex_field(s@).subrange(0, 2 * k).len() % 2 == 0);
                lemma_hex_bytes_snoc(hex_field(s@).subrange(0, 2 * k), a, b);
                assert(digest@.subrange(0, k + 1) =~= dpre.subrange(0, k as int).push(
                    (va * 16 + vb) as u8,
                ));
                assert(digest@.subrange(0, k + 1) =~= hex_bytes_of(
                    hex_field(s@).subrange(0, 2 * (k + 1)),
                ));
            }
            k = k + 1;
        }
        proof {
            assert(hex_field(s@).subrange(0, 40) =~= hex_field(s@));
            assert(digest@.subrange(0, 20) =~= digest@);
            assert(hex_ok(s@));
        }
        Ok(Swhid { object_type, hash: digest })
    }
}


/// The hex rendering has two characters per byte, all lowercase hex.
pub proof fn lemma_hex_of_wf(bytes: Seq<u8>)
    ensures
        hex_of(bytes).len() == 2 * bytes.len(),
        forall|i: int| 0 <= i < hex_of(bytes).len() ==> is_hex_lower(#[trigger] hex_of(bytes)[i]),
    decreases bytes.len(),
{
    if bytes.len() > 0 {
        lemma_hex_of_wf(bytes.subrange(1, bytes.len() as int));
    }
}

/// Decoding the hex rendering of a byte sequence gives it back.
pub proof fn lemma_hex_roundtrip(bytes: Seq<u8>)
    ensures
        hex_bytes_of(hex_of(bytes)) == bytes,
    decreases bytes.len(),
{
    if bytes.len() == 0 {
        assert(hex_bytes_of(hex_of(bytes)) =~= bytes);
    } else {
        let b = bytes[0];
        let rest = bytes.subrange(1, bytes.len() as int);
        lemma_hex_of_wf(rest);
        lemma_hex_roundtrip(rest);
        let h = hex_of(bytes);
        assert(h[0] == hex_char_of(b as int / 16));
        assert(h[1] == hex_char_of(b as int % 16));
        assert(hex_val(h[0]) == b as int / 16);
        assert(hex_val(h[1]) == b as int % 16);
        assert(hex_val(h[0]) * 16 + hex_val(h[1]) == b as int);
        assert(h.subrange(2, h.len() as int) =~= hex_of(rest));
        assert(hex_bytes_of(h) =~= bytes);
    }
}

/// Rendering the bytes decoded from even-length lowercase hex gives the
/// hex characters back.
pub proof fn lemma_hex_inverse(s: Seq<char>)
    requires
        s.len() % 2 == 0,
        forall|i: int| 0 <= i < s.len() ==> is_hex_lower(#[trigger] s[i]),
    ensures
        hex_of(hex_bytes_of(s)) == s,
    decreases s.len(),
{
    if s.len() == 0 {
        assert(hex_of(hex_bytes_of(s)) =~= s);
    } else {
        assert(s.len() >= 2);
        let a = s[0];
        let b = s[1];
        let va = hex_val(a);
        let vb = hex_val(b);
        assert(0 <= va < 16 && 0 <= vb < 16);
        let byte = (va * 16 + vb) as u8;
        assert(va * 16 + vb < 256);
        assert(byte as int == va * 16 + vb);
        assert(byte as int / 16 == va && byte as int % 16 == vb) by (nonlinear_arith)
            requires
                byte as int == va * 16 + vb,
                0 <= va < 16,
                0 <= vb < 16,
        {}
        assert(hex_char_of(va) == a);
        assert(hex_char_of(vb) == b);
        let rest = s.subrange(2, s.len() as int);
        lemma_hex_inverse(rest);
        let bs = hex_bytes_of(s);
        assert(bs[0] == byte);
        assert(bs.subrange(1, bs.len() as int) =~= hex_bytes_of(rest));
        assert(hex_of(bs) =~= s);
    }
}

/// `find_from` lands on `j` when `j` holds `c` and nothing before it
/// does.
proof fn lemma_find_from_eq(s: Seq<char>, i: int, j: int, c: char)
    requires
        0 <= i <= j < s.len(),
        s[j] == c,
        forall|l: int| i <= l < j ==> s[l] != c,
    ensures
        find_from(s, i, c) == j,
    decreases j - i,
{
    if i < j {
        lemma_find_from_eq(s, i + 1, j, c);
    }
}

/// `find_from` reaches the length when no position holds `c`.
proof fn lemma_find_from_none(s: Seq<char>, i: int, c: char)
    requires
        0 <= i <= s.len(),
        forall|l: int| i <= l < s.len() ==> s[l] != c,
    ensures
        find_from(s, i, c) == s.len(),
    decreases s.len() - i,
{
    if i < s.len() {
        lemma_find_from_none(s, i + 1, c);
    }
}

/// A code maps back to the kind that rendered it, and its three
/// characters are never a colon.
proof fn lemma_code_of_kind(t: ObjectType)
    ensures
        kind_of_code(t.code_spec()) == Some(t),
        t.code_spec().len() == 3,
        forall|i: int| 0 <= i < 3 ==> #[trigger] t.code_spec()[i] != ':',
{
    match t {
        ObjectType::Content => {
            assert(t.code_spec() =~= seq!['c', 'n', 't']);
        },
        ObjectType::Directory => {
            assert(t.code_spec() =~= seq!['d', 'i', 'r']);
        },
        ObjectType::Revision => {
            assert(t.code_spec() =~= seq!['r', 'e', 'v']);
        },
        ObjectType::Release => {
            assert(t.code_spec() =~= seq!['r', 'e', 'l']);
        },
        ObjectType::Snapshot => {
            assert(t.code_spec() =~= seq!['s', 'n', 'p']);
        },
    }
}

/// A kind read from a code pins the code: `kind_of_code(k) == Some(t)`
/// only when `k` is the code of `t`.
proof fn lemma_kind_of_code_inv(k: Seq<char>, t: ObjectType)
    requires
        kind_of_code(k) == Some(t),
    ensures
        k == t.code_spec(),
{
}

/// Round trip, parse side: the fields that parsing reads from a
/// canonical identifier string (kind and digest), rendered again with
/// `render_chars`, reassemble the exact input string.
pub proof fn lemma_parse_render_roundtrip(s: Seq<char>)
    requires
        valid_swhid_chars(s),
    ensures
        kind_of_code(kind_field(s)) matches Some(t) && render_chars(
            t,
            hex_bytes_of(hex_field(s)),
        ) == s,
{
    let c1 = colon1(s);
    let c2 = colon2(s);
    let c3 = colon3(s);
    lemma_find_from(s, 0, ':');
    assert(c1 < s.len()) by {
        if c1 >= s.len() {
            assert(c1 == s.len());
            assert(c2 == s.len());
            assert(c3 == s.len());
        }
    }
    assert(ns_field(s).len() == c1);
    assert(c1 == 3);
    assert(s[0] == 's' && s[1] == 'w' && s[2] == 'h') by {
        assert(ns_field(s)[0] == s[0]);
        assert(ns_field(s)[1] == s[1]);
        assert(ns_field(s)[2] == s[2]);
    }
    assert(s[c1] == ':');
    lemma_find_from(s, c1 + 1, ':');
    assert(c2 < s.len()) by {
        if c2 >= s.len() {
            assert(c2 == s.len());
            assert(c3 == s.len());
        }
    }
    assert(ver_field(s).len() == c2 - c1 - 1);
    assert(c2 == 5);
    assert(s[4] == '1') by {
        assert(ver_field(s)[0] == s[c1 + 1]);
    }
    assert(s[c2] == ':');
    lemma_find_from(s, c2 + 1, ':');
    assert(c3 < s.len());
    let t = kind_of_code(kind_field(s)).unwrap();
    lemma_kind_of_code_inv(kind_field(s), t);
    lemma_code_of_kind(t);
    assert(kind_field(s).len() == c3 - c2 - 1);
    assert(c3 == 9);
    assert(s[c3] == ':');
    assert(hex_field(s).len() == s.len() - c3 - 1);
    assert(s.len() == 50);
    let digest = hex_bytes_of(hex_field(s));
    lemma_hex_inverse(hex_field(s));
    assert(hex_of(digest) == hex_field(s));
    let r = render_chars(t, digest);
    assert(t.code_spec() == kind_field(s));
    assert forall|i: int| 0 <= i < 3 implies t.code_spec()[i] == s[6 + i] by {
        assert(kind_field(s)[i] == s[c2 + 1 + i]);
    }
    assert forall|i: int| 0 <= i < 40 implies hex_field(s)[i] == s[10 + i] by {
        assert(hex_field(s)[i] == s[c3 + 1 + i]);
    }
    assert(r =~= s);
}

/// Round trip, render side: the canonical string of any identifier is
/// itself canonical, and parses back to the same kind and digest.
pub proof fn lemma_render_parse_roundtrip(t: ObjectType, digest: Seq<u8>)
    requires
        digest.len() == 20,
    ensures
        valid_swhid_chars(render_chars(t, digest)),
        kind_of_code(kind_field(render_chars(t, digest))) == Some(t),
        hex_bytes_of(hex_field(render_chars(t, digest))) == digest,
{
    let r = render_chars(t, digest);
    lemma_hex_of_wf(digest);
    lemma_code_of_kind(t);
    assert(r.len() == 50);
    assert(r[0] == 's' && r[1] == 'w' && r[2] == 'h' && r[3] == ':');
    assert(r[4] == '1' && r[5] == ':');
    assert forall|i: int| 6 <= i < 9 implies r[i] == t.code_spec()[i - 6] by {}
    assert(r[9] == ':');
    assert forall|i: int| 10 <= i < 50 implies #[trigger] r[i] == hex_of(digest)[i - 10] by {}
    assert forall|i: int| 10 <= i < 50 implies #[trigger] r[i] != ':' by {
        assert(is_hex_lower(hex_of(digest)[i - 10]));
        assert(hex_val(':') == -1);
    }
    assert forall|i: int| 0 <= i < 3 implies #[trigger] r[6 + i] != ':' by {
        assert(r[6 + i] == t.code_spec()[i]);
    }
    lemma_find_from_eq(r, 0, 3, ':');
    assert(colon1(r) == 3);
    lemma_find_from_eq(r, 4, 5, ':');
    assert(colon2(r) == 5);
    assert(r[6] != ':' && r[7] != ':' && r[8] != ':');
    lemma_find_from_eq(r, 6, 9, ':');
    assert(colon3(r) == 9);
    lemma_find_from_none(r, 10, ':');
    assert(has_three_colons(r));
    assert(ns_field(r) =~= seq!['s', 'w', 'h']);
    assert(ver_field(r) =~= seq!['1']);
    assert(kind_field(r) =~= t.code_spec());
    assert(hex_field(r) =~= hex_of(digest));
    lemma_hex_roundtrip(digest);
    assert(hexlen_ok(r));
    assert forall|i: int| 0 <= i < hex_field(r).len() implies is_hex_lower(
        #[trigger] hex_field(r)[i],
    ) by {
        assert(hex_field(r)[i] == hex_of(digest)[i]);
    }
}

} // verus!
