//! Shell-glob matching for exclusion patterns: `*`, `?` and `[…]`
//! classes (with `!` negation and `-` ranges), applied to whole names.

use vstd::prelude::*;
use crate::swhid::find_from;
use crate::swhid::lemma_find_from;

verus! {

/// Where the body of a `[…]` class beginning at `i` starts: after the
/// `[` and an optional `!`.  A `]` standing first in the body is a
/// literal member, so the search for the closing `]` starts one later.
pub open spec fn class_body_start(p: Seq<char>, i: int) -> int {
    if i + 1 < p.len() && p[i + 1] == '!' {
        i + 2
    } else {
        i + 1
    }
}

/// Whether the class beginning at `i` is negated by `!`.
pub open spec fn class_negated(p: Seq<char>, i: int) -> bool {
    i + 1 < p.len() && p[i + 1] == '!'
}

/// Index of the `]` that closes a class beginning at `i`, or the
/// pattern length when there is none (the `[` is then a literal).
pub open spec fn class_close(p: Seq<char>, i: int) -> int {
    let b = class_body_start(p, i);
    let scan = if b < p.len() && p[b] == ']' {
        b + 1
    } else {
        b
    };
    find_from(p, scan, ']')
}

/// Whether `c` is named by the class body: a member character, or a
/// `lo-hi` range containing it.
pub open spec fn class_body_matches(body: Seq<char>, c: char) -> bool
    decreases body.len(),
{
    if body.len() == 0 {
        false
    } else if body.len() >= 3 && body[1] == '-' {
        (body[0] as int <= c as int && c as int <= body[2] as int) || class_body_matches(
            body.subrange(3, body.len() as int),
            c,
        )
    } else {
        body[0] == c || class_body_matches(body.subrange(1, body.len() as int), c)
    }
}

/// Whether the pattern from position `i` matches the name from
/// position `j`: `*` matches any run, `?` any one character, a closed
/// `[…]` class one character it names, everything else itself.
pub open spec fn glob_match_at(p: Seq<char>, n: Seq<char>, i: int, j: int) -> bool
    decreases p.len() - i, n.len() - j,
{
    if i < 0 || j < 0 || i > p.len() || j > n.len() {
        false
    } else if i == p.len() {
        j == n.len()
    } else if p[i] == '*' {
        glob_match_at(p, n, i + 1, j) || (j < n.len() && glob_match_at(p, n, i, j + 1))
    } else if p[i] == '[' && class_close(p, i) < p.len() {
        proof {
            lemma_find_from(
                p,
                if class_body_start(p, i) < p.len() && p[class_body_start(p, i)] == ']' {
                    class_body_start(p, i) + 1
                } else {
                    class_body_start(p, i)
                },
                ']',
            );
        }
        &&& j < n.len()
        &&& class_negated(p, i) != class_body_matches(
            p.subrange(class_body_start(p, i), class_close(p, i)),
            n[j],
        )
        &&& glob_match_at(p, n, class_close(p, i) + 1, j + 1)
    } else {
        j < n.len() && (p[i] == '?' || p[i] == n[j]) && glob_match_at(p, n, i + 1, j + 1)
    }
}

/// Whether the whole name matches the whole pattern.
pub open spec fn glob_match_spec(p: Seq<char>, n: Seq<char>) -> bool {
    glob_match_at(p, n, 0, 0)
}

/// Whether `c` lies in the class body `p[lo..hi]`.
fn class_body_matches_exec(p: &str, lo: usize, hi: usize, c: char) -> (r: bool)
    requires
        lo <= hi <= p@.len(),
    ensures
        r == class_body_matches(p@.subrange(lo as int, hi as int), c),
    decreases hi - lo,
{
    let ghost body = p@.subrange(lo as int, hi as int);
    if lo == hi {
        false
    } else if hi - lo >= 3 && p.get_char(lo + 1) == '-' {
        proof {
            assert(body[0] == p@[lo as int]);
            assert(body[1] == p@[lo as int + 1]);
            assert(body[2] == p@[lo as int + 2]);
            assert(body.subrange(3, body.len() as int) =~= p@.subrange(lo + 3, hi as int));
        }
        let b0 = p.get_char(lo);
        let b2 = p.get_char(lo + 2);
        if (b0 as u32) <= (c as u32) && (c as u32) <= (b2 as u32) {
            true
        } else {
            class_body_matches_exec(p, lo + 3, hi, c)
        }
    } else {
        proof {
            assert(body[0] == p@[lo as int]);
            assert(body.subrange(1, body.len() as int) =~= p@.subrange(lo + 1, hi as int));
        }
        if p.get_char(lo) == c {
            true
        } else {
            class_body_matches_exec(p, lo + 1, hi, c)
        }
    }
}

/// Matches pattern and name from positions `i` and `j`.
fn glob_match_at_exec(p: &str, n: &str, i: usize, j: usize) -> (r: bool)
    requires
        i <= p@.len(),
        j <= n@.len(),
    ensures
        r == glob_match_at(p@, n@, i as int, j as int),
    decreases p@.len() - i, n@.len() - j,
{
    if i == p.unicode_len() {
        return j == n.unicode_len();
    }
    let pc = p.get_char(i);
    if pc == '*' {
        if glob_match_at_exec(p, n, i + 1, j) {
            return true;
        }
        if j < n.unicode_len() {
            return glob_match_at_exec(p, n, i, j + 1);
        }
        return false;
    }
    if pc == '[' {
        // locate the closing bracket, skipping `!` and a literal `]`
        let b: usize = if i + 1 < p.unicode_len() && p.get_char(i + 1) == '!' {
            i + 2
        } else {
            i + 1
        };
        proof {
            assert(b as int == class_body_start(p@, i as int));
        }
        let scan: usize = if b < p.unicode_len() && p.get_char(b) == ']' {
            b + 1
        } else {
            b
        };
        let close = crate::swhid::find_char(p, scan, ']');
        proof {
            assert(close as int == class_close(p@, i as int));
        }
        if close < p.unicode_len() {
            if j >= n.unicode_len() {
                return false;
            }
            let nc = n.get_char(j);
            let inside = class_body_matches_exec(p, b, close, nc);
            let neg = i + 1 < p.unicode_len() && p.get_char(i + 1) == '!';
            if neg != inside {
                return glob_match_at_exec(p, n, close + 1, j + 1);
            }
            return false;
        }
        // no closing bracket: `[` is an ordinary character
        if j < n.unicode_len() && n.get_char(j) == '[' {
            return glob_match_at_exec(p, n, i + 1, j + 1);
        }
        return false;
    }
    if j < n.unicode_len() && (pc == '?' || pc == n.get_char(j)) {
        return glob_match_at_exec(p, n, i + 1, j + 1);
    }
    false
}

/// Whether `name` matches `pattern` under shell-glob semantics:
/// `*` any run of characters, `?` any one character, `[…]` one
/// character of the class (`[!…]` negates; `lo-hi` spans a range).
pub fn glob_match(pattern: &str, name: &str) -> (r: bool)
    ensures
        r == glob_match_spec(pattern@, name@),
{
    glob_match_at_exec(pattern, name, 0, 0)
}

} // verus!
