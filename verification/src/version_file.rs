//! Scanning a version-declaration file (`go.mod` or `go.work`) for the
//! first `go <version>` line and normalizing the declared version.

use vstd::prelude::*;

use crate::strkit::{match_at, str_chars, str_eq};
use crate::version::{to_semantic, from_go_version};

use vstd::string::StrSliceExecFns;
use vstd::string::StringExecFns;

verus! {

/// The declaration keyword: `go` followed by one space.
pub open spec fn go_kw_chars() -> Seq<char> {
    seq!['g', 'o', ' ']
}

/// The first recognized declaration file name, `go.mod`.
pub open spec fn gomod_chars() -> Seq<char> {
    seq!['g', 'o', '.', 'm', 'o', 'd']
}

/// The second recognized declaration file name, `go.work`.
pub open spec fn gowork_chars() -> Seq<char> {
    seq!['g', 'o', '.', 'w', 'o', 'r', 'k']
}

/// Only the two fixed declaration file names are inspected at all.
pub open spec fn recognized_file(f: Seq<char>) -> bool {
    f == gomod_chars() || f == gowork_chars()
}

/// A line of `s` starts at `p` and begins with the declaration keyword.
pub open spec fn go_line_at(s: Seq<char>, p: int) -> bool {
    (p == 0 || s[p - 1] == '\n') && match_at(s, go_kw_chars(), p)
}

/// `p` is the first declaration line start in `s`.
pub open spec fn first_go_line_at(s: Seq<char>, p: int) -> bool {
    go_line_at(s, p) && forall|q: int| 0 <= q < p ==> !go_line_at(s, q)
}

/// Some line of `s` begins with the declaration keyword.
pub open spec fn has_version_line(s: Seq<char>) -> bool {
    exists|p: int| go_line_at(s, p)
}

/// The first declaration line start; meaningful only when
/// `has_version_line(s)` holds.
pub open spec fn first_go_pos(s: Seq<char>) -> int {
    choose|p: int| first_go_line_at(s, p)
}

/// A declaration line anywhere yields a first one.
pub proof fn lemma_first_go_line_exists(s: Seq<char>, p: int)
    requires
        go_line_at(s, p),
    ensures
        first_go_line_at(s, first_go_pos(s)),
        first_go_pos(s) <= p,
    decreases p,
{
    if exists|q: int| 0 <= q < p && go_line_at(s, q) {
        let q = choose|q: int| 0 <= q < p && go_line_at(s, q);
        lemma_first_go_line_exists(s, q);
    } else {
        assert(first_go_line_at(s, p));
        let w = first_go_pos(s);
        if w != p {
            assert(first_go_line_at(s, w));
            if w > p {
                assert(!go_line_at(s, p));
            }
        }
    }
}

/// The first declaration line start is unique.
pub proof fn lemma_first_go_line_unique(s: Seq<char>, p: int)
    requires
        first_go_line_at(s, p),
    ensures
        first_go_pos(s) == p,
{
    lemma_first_go_line_exists(s, p);
    let w = first_go_pos(s);
    if w < p {
        assert(!go_line_at(s, w));
    }
    if p < w {
        assert(!go_line_at(s, p));
    }
}

/// Position of the first line break at or after `p`, or the length of
/// `s` when the rest of it is one line.
pub open spec fn line_end_from(s: Seq<char>, p: int) -> int
    decreases s.len() - p,
{
    if p < 0 {
        0
    } else if p >= s.len() {
        s.len() as int
    } else if s[p] == '\n' {
        p
    } else {
        line_end_from(s, p + 1)
    }
}

/// Whitespace stripped from a declared version token.
pub open spec fn is_space(c: char) -> bool {
    c == ' ' || c == '\t' || c == '\r'
}

/// `s` without leading whitespace.
pub open spec fn trim_left(s: Seq<char>) -> Seq<char>
    decreases s.len(),
{
    if s.len() > 0 && is_space(s.first()) {
        trim_left(s.drop_first())
    } else {
        s
    }
}

/// `s` without trailing whitespace.
pub open spec fn trim_right(s: Seq<char>) -> Seq<char>
    decreases s.len(),
{
    if s.len() > 0 && is_space(s.last()) {
        trim_right(s.drop_last())
    } else {
        s
    }
}

/// `s` without leading or trailing whitespace.
pub open spec fn trimmed(s: Seq<char>) -> Seq<char> {
    trim_right(trim_left(s))
}

/// The rest of the first declaration line after the keyword; meaningful
/// only when `has_version_line(s)` holds.
pub open spec fn version_line_token(s: Seq<char>) -> Seq<char> {
    let p = first_go_pos(s);
    s.subrange(p + 3, line_end_from(s, p + 3))
}

/// What scanning a declaration file yields: the normalized version of
/// the first declared token, or nothing when the file name is not
/// recognized or no line declares a version.
pub open spec fn extracted_version(file: Seq<char>, content: Seq<char>) -> Option<Seq<char>> {
    if recognized_file(file) && has_version_line(content) {
        Some(to_semantic(trimmed(version_line_token(content))))
    } else {
        None
    }
}

/// The declaration file names a project is probed for, in probe order.
pub fn version_file_names() -> (r: Vec<String>)
    ensures
        r@.len() == 2,
        r@[0]@ == gomod_chars(),
        r@[1]@ == gowork_chars(),
{
    let mut r: Vec<String> = Vec::new();
    r.push(String::from_str("go.mod"));
    r.push(String::from_str("go.work"));
    proof {
        reveal_strlit("go.mod");
        reveal_strlit("go.work");
        assert(r@[0]@ =~= gomod_chars());
        assert(r@[1]@ =~= gowork_chars());
    }
    r
}

/// Finds the first declaration line start, if any line begins with the
/// keyword.
fn find_go_line(chars: &Vec<char>) -> (r: Option<usize>)
    ensures
        match r {
            Some(p) => first_go_line_at(chars@, p as int),
            None => !has_version_line(chars@),
        },
{
    let n = chars.len();
    let mut p: usize = 0;
    while p < n
        invariant
            n == chars@.len(),
            p <= n,
            forall|q: int| 0 <= q < p ==> !go_line_at(chars@, q),
        decreases n - p,
    {
        if (p == 0 || chars[p - 1] == '\n') && n - p >= 3 && chars[p] == 'g' && chars[p + 1]
            == 'o' && chars[p + 2] == ' ' {
            proof {
                assert(match_at(chars@, go_kw_chars(), p as int));
            }
            return Some(p);
        }
        proof {
            assert(!go_line_at(chars@, p as int));
        }
        p = p + 1;
    }
    proof {
        assert forall|q: int| !go_line_at(chars@, q) by {
            if 0 <= q && q + 3 <= chars@.len() {
                assert(q < p);
            }
        }
    }
    None
}

/// Scans a declaration file for its version pin.
pub fn extract_version(file: &str, content: &str) -> (r: Option<String>)
    ensures
        match r {
            Some(v) => extracted_version(file@, content@) == Some(v@),
            None => extracted_version(file@, content@) is None,
        },
{
    let gomod = str_eq(file, "go.mod");
    let gowork = str_eq(file, "go.work");
    proof {
        reveal_strlit("go.mod");
        reveal_strlit("go.work");
        assert("go.mod"@ =~= gomod_chars());
        assert("go.work"@ =~= gowork_chars());
    }
    if !gomod && !gowork {
        return None;
    }
    let chars = str_chars(content);
    let n = chars.len();
    let p = match find_go_line(&chars) {
        None => {
            return None;
        },
        Some(p) => p,
    };
    proof {
        lemma_first_go_line_unique(content@, p as int);
    }
    let a = p + 3;
    let mut e = a;
    while e < n && chars[e] != '\n'
        invariant
            n == content@.len(),
            a <= e <= n,
            chars@ == content@,
            line_end_from(content@, a as int) == line_end_from(content@, e as int),
        decreases n - e,
    {
        e = e + 1;
    }
    proof {
        assert(line_end_from(content@, a as int) == e);
    }
    let mut b0 = a;
    while b0 < e && (chars[b0] == ' ' || chars[b0] == '\t' || chars[b0] == '\r')
        invariant
            a <= b0 <= e <= n,
            n == content@.len(),
            chars@ == content@,
            trim_left(content@.subrange(a as int, e as int)) == trim_left(
                content@.subrange(b0 as int, e as int),
            ),
        decreases e - b0,
    {
        proof {
            let t = content@.subrange(b0 as int, e as int);
            assert(is_space(t.first()));
            assert(t.drop_first() =~= content@.subrange(b0 + 1, e as int));
        }
        b0 = b0 + 1;
    }
    proof {
        assert(trim_left(content@.subrange(a as int, e as int)) == content@.subrange(
            b0 as int,
            e as int,
        ));
    }
    let mut b1 = e;
    while b1 > b0 && (chars[b1 - 1] == ' ' || chars[b1 - 1] == '\t' || chars[b1 - 1] == '\r')
        invariant
            b0 <= b1 <= e <= n,
            n == content@.len(),
            chars@ == content@,
            trim_right(content@.subrange(b0 as int, e as int)) == trim_right(
                content@.subrange(b0 as int, b1 as int),
            ),
        decreases b1,
    {
        proof {
            let t = content@.subrange(b0 as int, b1 as int);
            assert(is_space(t.last()));
            assert(t.drop_last() =~= content@.subrange(b0 as int, b1 - 1));
        }
        b1 = b1 - 1;
    }
    proof {
        assert(trim_right(content@.subrange(b0 as int, b1 as int)) == content@.subrange(
            b0 as int,
            b1 as int,
        ));
        assert(trimmed(version_line_token(content@)) == content@.subrange(b0 as int, b1 as int));
    }
    let tok = content.substring_char(b0, b1);
    let sem = from_go_version(tok);
    Some(sem)
}

} // verus!
