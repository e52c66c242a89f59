//! Conversion between Go's native version spelling (`1`, `1.2`, `1.4rc1`)
//! and canonical semantic-version strings (`1.0.0`, `1.2.0`, `1.4.0-rc1`),
//! in both directions.

use vstd::prelude::*;

use crate::strkit::{
    contains_sub, count_char, count_char_in, find_sub, index_of_sub, lemma_first_match_unique,
    str_chars,
};

use vstd::string::StrSliceExecFns;
use vstd::string::StringExecFns;

verus! {

/// The characters of the prerelease marker `alpha`.
pub open spec fn alpha_chars() -> Seq<char> {
    seq!['a', 'l', 'p', 'h', 'a']
}

/// The characters of the prerelease marker `beta`.
pub open spec fn beta_chars() -> Seq<char> {
    seq!['b', 'e', 't', 'a']
}

/// The characters of the prerelease marker `rc`.
pub open spec fn rc_chars() -> Seq<char> {
    seq!['r', 'c']
}

/// The zero components a native token lacks, judged by its dot count:
/// no dots means both minor and patch are elided, one dot means the
/// patch is elided, two or more mean the token is already complete.
pub open spec fn elided_suffix(s: Seq<char>) -> Seq<char> {
    let dots = count_char(s, '.');
    if dots == 0 {
        seq!['.', '0', '.', '0']
    } else if dots == 1 {
        seq!['.', '0']
    } else {
        Seq::empty()
    }
}

/// The marker `m` calls for a splice: it occurs in `s`, and `s` does not
/// already carry the elided suffix and separator directly in front of an
/// occurrence of `m` (the guard that makes normalization idempotent).
pub open spec fn marker_active(s: Seq<char>, m: Seq<char>) -> bool {
    contains_sub(s, m) && !contains_sub(s, elided_suffix(s) + seq!['-'] + m)
}

/// `s` with the elided suffix and a `-` separator inserted directly
/// before the first occurrence of marker `m`.
pub open spec fn spliced(s: Seq<char>, m: Seq<char>) -> Seq<char> {
    let i = index_of_sub(s, m);
    s.take(i) + elided_suffix(s) + seq!['-'] + s.skip(i)
}

/// The semantic form of a native version token: the elided zero
/// components are inserted before the prerelease marker if one is
/// present (and not already preceded by them), and appended otherwise.
pub open spec fn to_semantic(s: Seq<char>) -> Seq<char> {
    if marker_active(s, alpha_chars()) {
        spliced(s, alpha_chars())
    } else if marker_active(s, beta_chars()) {
        spliced(s, beta_chars())
    } else if marker_active(s, rc_chars()) {
        spliced(s, rc_chars())
    } else {
        s + elided_suffix(s)
    }
}

/// `s` with every trailing `.0` pair removed.
pub open spec fn strip_tail_zeros(s: Seq<char>) -> Seq<char>
    decreases s.len(),
{
    if s.len() >= 2 && s[s.len() - 2] == '.' && s[s.len() - 1] == '0' {
        strip_tail_zeros(s.take(s.len() - 2))
    } else {
        s
    }
}

/// `s` with every run of `.0` pairs standing directly before a `-`
/// removed.
pub open spec fn squash_zero_dash(s: Seq<char>) -> Seq<char>
    decreases s.len(),
{
    if s.len() == 0 {
        Seq::empty()
    } else if s.last() == '-' {
        strip_tail_zeros(squash_zero_dash(s.drop_last())) + seq!['-']
    } else {
        squash_zero_dash(s.drop_last()).push(s.last())
    }
}

/// `s` with every `-` removed.
pub open spec fn remove_dashes(s: Seq<char>) -> Seq<char>
    decreases s.len(),
{
    if s.len() == 0 {
        Seq::empty()
    } else if s.last() == '-' {
        remove_dashes(s.drop_last())
    } else {
        remove_dashes(s.drop_last()).push(s.last())
    }
}

/// The native form of a semantic version: trailing `.0` components are
/// stripped, the `.0` components directly before the prerelease
/// separator are removed, and the separator itself is dropped.
pub open spec fn to_native(s: Seq<char>) -> Seq<char> {
    remove_dashes(squash_zero_dash(strip_tail_zeros(s)))
}

/// Splices the elided suffix before `marker` if the marker occurs in
/// `version` and is not already preceded by the suffix.
fn splice_marker(version: &str, chars: &Vec<char>, suffix: &str, marker: &str) -> (r: Option<
    String,
>)
    requires
        chars@ == version@,
        suffix@ == elided_suffix(version@),
    ensures
        match r {
            Some(s) => marker_active(version@, marker@) && s@ == spliced(version@, marker@),
            None => !marker_active(version@, marker@),
        },
{
    let m = str_chars(marker);
    let hit = find_sub(chars, &m);
    match hit {
        None => None,
        Some(i) => {
            let mut guard = String::new();
            guard.append(suffix);
            guard.append("-");
            guard.append(marker);
            let guard_chars = str_chars(guard.as_str());
            proof {
                reveal_strlit("-");
                assert(guard_chars@ =~= elided_suffix(version@) + seq!['-'] + marker@);
            }
            if find_sub(chars, &guard_chars).is_some() {
                return None;
            }
            let n = version.unicode_len();
            let mut out = String::new();
            out.append(version.substring_char(0, i));
            out.append(suffix);
            out.append("-");
            out.append(version.substring_char(i, n));
            proof {
                lemma_first_match_unique(version@, marker@, i as int);
                reveal_strlit("-");
                assert(version@.subrange(0, i as int) =~= version@.take(i as int));
                assert(version@.subrange(i as int, n as int) =~= version@.skip(i as int));
                assert(out@ =~= spliced(version@, marker@));
            }
            Some(out)
        },
    }
}

/// The semantic-version spelling of a native Go version token.
pub fn from_go_version(version: &str) -> (r: String)
    ensures
        r@ == to_semantic(version@),
{
    let chars = str_chars(version);
    let dots = count_char_in(&chars, '.');
    let suffix: &str = if dots == 0 {
        ".0.0"
    } else if dots == 1 {
        ".0"
    } else {
        ""
    };
    proof {
        reveal_strlit(".0.0");
        reveal_strlit(".0");
        reveal_strlit("");
        assert(suffix@ =~= elided_suffix(version@));
        reveal_strlit("alpha");
        reveal_strlit("beta");
        reveal_strlit("rc");
        assert("alpha"@ =~= alpha_chars());
        assert("beta"@ =~= beta_chars());
        assert("rc"@ =~= rc_chars());
    }
    match splice_marker(version, &chars, suffix, "alpha") {
        Some(r) => r,
        None => match splice_marker(version, &chars, suffix, "beta") {
            Some(r) => r,
            None => match splice_marker(version, &chars, suffix, "rc") {
                Some(r) => r,
                None => {
                    let mut out = String::new();
                    out.append(version);
                    out.append(suffix);
                    proof {
                        assert(out@ =~= version@ + elided_suffix(version@));
                    }
                    out
                },
            },
        },
    }
}

/// The native Go spelling of a semantic version.
pub fn to_go_version(version: &str) -> (r: String)
    ensures
        r@ == to_native(version@),
{
    let chars = str_chars(version);
    let mut end: usize = chars.len();
    proof {
        assert(version@.take(end as int) =~= version@);
    }
    while end >= 2 && chars[end - 2] == '.' && chars[end - 1] == '0'
        invariant
            end <= chars@.len(),
            chars@ == version@,
            strip_tail_zeros(version@) == strip_tail_zeros(version@.take(end as int)),
        decreases end,
    {
        proof {
            let t = version@.take(end as int);
            assert(t.len() == end);
            assert(t[end - 2] == version@[end - 2]);
            assert(t[end - 1] == version@[end - 1]);
            assert(t.take(end - 2) =~= version@.take(end - 2));
        }
        end = end - 2;
    }
    proof {
        assert(version@.take(chars@.len() as int) =~= version@);
        assert(strip_tail_zeros(version@) == version@.take(end as int));
    }
    // The kept characters fall into dash-free stretches of the input:
    // one stretch per separator, each with its own trailing `.0` pairs
    // cut off, and the stretch after the last separator. The output is
    // those stretches, joined.
    let mut out = String::new();
    let mut seg_start: usize = 0;
    let mut i: usize = 0;
    let ghost mut q: Seq<char> = Seq::empty();
    proof {
        assert(version@.take(0) =~= Seq::<char>::empty());
        assert(q + version@.subrange(0, 0) =~= Seq::<char>::empty());
    }
    while i < end
        invariant
            seg_start <= i <= end <= version@.len(),
            chars@ == version@,
            q.len() == 0 ==> seg_start == 0,
            q.len() > 0 ==> q.last() == '-',
            squash_zero_dash(version@.take(i as int)) == q + version@.subrange(
                seg_start as int,
                i as int,
            ),
            out@ == remove_dashes(q),
            forall|k: int| seg_start <= k < i ==> version@[k] != '-',
        decreases end - i,
    {
        let c = chars[i];
        proof {
            let t = version@.take(i + 1);
            assert(t.drop_last() =~= version@.take(i as int));
            assert(t.last() == c);
        }
        if c == '-' {
            let mut e = i;
            while e - seg_start >= 2 && chars[e - 2] == '.' && chars[e - 1] == '0'
                invariant
                    seg_start <= e <= i <= version@.len(),
                    chars@ == version@,
                    strip_tail_zeros(version@.subrange(seg_start as int, i as int))
                        == strip_tail_zeros(version@.subrange(seg_start as int, e as int)),
                decreases e,
            {
                proof {
                    let t = version@.subrange(seg_start as int, e as int);
                    assert(t[t.len() - 2] == version@[e - 2]);
                    assert(t[t.len() - 1] == version@[e - 1]);
                    assert(t.take(t.len() - 2) =~= version@.subrange(seg_start as int, e - 2));
                }
                e = e - 2;
            }
            let ghost full = version@.subrange(seg_start as int, i as int);
            let ghost stripped = version@.subrange(seg_start as int, e as int);
            proof {
                assert(strip_tail_zeros(stripped) == stripped);
                assert(strip_tail_zeros(full) == stripped);
            }
            out.append(version.substring_char(seg_start, e));
            proof {
                if q.len() == 0 {
                    assert(q + full =~= full);
                } else {
                    lemma_strip_behind_dash(q, full);
                }
                assert(strip_tail_zeros(q + full) == q + stripped);
                let q2 = (q + stripped) + seq!['-'];
                assert(squash_zero_dash(version@.take(i + 1)) == q2);
                assert(q2.drop_last() =~= q + stripped);
                assert(remove_dashes(q2) == remove_dashes(q + stripped));
                assert(forall|j: int| 0 <= j < stripped.len() ==> stripped[j] != '-');
                lemma_remove_append(q, stripped);
                q = q2;
                assert(q + version@.subrange(i + 1, i + 1) =~= q);
            }
            seg_start = i + 1;
        } else {
            proof {
                assert((q + version@.subrange(seg_start as int, i as int)).push(c) =~= q
                    + version@.subrange(seg_start as int, i + 1));
            }
        }
        i = i + 1;
    }
    out.append(version.substring_char(seg_start, end));
    proof {
        lemma_remove_append(q, version@.subrange(seg_start as int, end as int));
    }
    out
}

/// A sequence whose last character is the separator passes trailing
/// `.0` stripping through to what follows it.
pub proof fn lemma_strip_behind_dash(x: Seq<char>, t: Seq<char>)
    requires
        x.len() > 0,
        x.last() == '-',
    ensures
        strip_tail_zeros(x + t) == x + strip_tail_zeros(t),
    decreases t.len(),
{
    let s = x + t;
    if t.len() >= 2 && t[t.len() - 2] == '.' && t[t.len() - 1] == '0' {
        assert(s[s.len() - 2] == '.' && s[s.len() - 1] == '0');
        assert(s.take(s.len() - 2) =~= x + t.take(t.len() - 2));
        lemma_strip_behind_dash(x, t.take(t.len() - 2));
    } else {
        if s.len() >= 2 {
            if t.len() == 1 {
                assert(s[s.len() - 2] == x.last());
            } else if t.len() == 0 {
                assert(s.last() == x.last());
            }
        }
        assert(strip_tail_zeros(s) == s);
        assert(strip_tail_zeros(t) == t);
        assert(s == x + t);
    }
}

/// A dash-free tail rides through dash removal unchanged.
pub proof fn lemma_remove_append(x: Seq<char>, y: Seq<char>)
    requires
        forall|k: int| 0 <= k < y.len() ==> y[k] != '-',
    ensures
        remove_dashes(x + y) == remove_dashes(x) + y,
    decreases y.len(),
{
    if y.len() == 0 {
        assert(x + y =~= x);
        assert(remove_dashes(x) + y =~= remove_dashes(x));
    } else {
        lemma_remove_append(x, y.drop_last());
        let s = x + y;
        assert(s.last() == y.last());
        assert(s.drop_last() =~= x + y.drop_last());
        assert(remove_dashes(s) == remove_dashes(x + y.drop_last()).push(y.last()));
        assert((remove_dashes(x) + y.drop_last()).push(y.last()) =~= remove_dashes(x) + y);
    }
}

} // verus!

