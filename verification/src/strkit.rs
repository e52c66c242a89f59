//! Character-sequence utilities shared by the version and catalog logic:
//! substring search, character counting, and conversions between `&str`
//! and `Vec<char>`.

use vstd::prelude::*;

verus! {

/// The pattern `pat` occurs in `hay` starting at position `i`.
pub open spec fn match_at(hay: Seq<char>, pat: Seq<char>, i: int) -> bool {
    &&& 0 <= i
    &&& i + pat.len() <= hay.len()
    &&& forall|k: int| 0 <= k < pat.len() ==> hay[i + k] == pat[k]
}

/// The pattern occurs somewhere in `hay`.
pub open spec fn contains_sub(hay: Seq<char>, pat: Seq<char>) -> bool {
    exists|i: int| match_at(hay, pat, i)
}

/// `i` is the first position at which `pat` occurs in `hay`.
pub open spec fn first_match(hay: Seq<char>, pat: Seq<char>, i: int) -> bool {
    &&& match_at(hay, pat, i)
    &&& forall|j: int| 0 <= j < i ==> !match_at(hay, pat, j)
}

/// The first position at which `pat` occurs in `hay`; meaningful only
/// when `contains_sub(hay, pat)` holds.
pub open spec fn index_of_sub(hay: Seq<char>, pat: Seq<char>) -> int {
    choose|i: int| first_match(hay, pat, i)
}

/// An occurrence anywhere yields a first occurrence.
pub proof fn lemma_first_match_exists(hay: Seq<char>, pat: Seq<char>, i: int)
    requires
        match_at(hay, pat, i),
    ensures
        first_match(hay, pat, index_of_sub(hay, pat)),
        index_of_sub(hay, pat) <= i,
    decreases i,
{
    if exists|j: int| 0 <= j < i && match_at(hay, pat, j) {
        let j = choose|j: int| 0 <= j < i && match_at(hay, pat, j);
        lemma_first_match_exists(hay, pat, j);
    } else {
        assert(first_match(hay, pat, i));
        let w = index_of_sub(hay, pat);
        if w != i {
            assert(first_match(hay, pat, w));
            if w < i {
            } else {
                assert(!match_at(hay, pat, i));
            }
        }
    }
}

/// The first occurrence position is unique.
pub proof fn lemma_first_match_unique(hay: Seq<char>, pat: Seq<char>, i: int)
    requires
        first_match(hay, pat, i),
    ensures
        index_of_sub(hay, pat) == i,
{
    lemma_first_match_exists(hay, pat, i);
    let w = index_of_sub(hay, pat);
    if w < i {
        assert(!match_at(hay, pat, w));
    }
    if i < w {
        assert(!match_at(hay, pat, i));
    }
}

/// A pattern holding a character absent from `hay` occurs nowhere in it.
pub proof fn lemma_absent_char_no_match(hay: Seq<char>, pat: Seq<char>, k: int)
    requires
        0 <= k < pat.len(),
        forall|i: int| 0 <= i < hay.len() ==> hay[i] != pat[k],
    ensures
        !contains_sub(hay, pat),
{
    assert forall|i: int| !match_at(hay, pat, i) by {
        if 0 <= i && i + pat.len() <= hay.len() {
            assert(hay[i + k] != pat[k]);
        }
    }
}

/// Number of occurrences of `c` in `s`.
pub open spec fn count_char(s: Seq<char>, c: char) -> nat
    decreases s.len(),
{
    if s.len() == 0 {
        0
    } else {
        count_char(s.drop_last(), c) + if s.last() == c {
            1nat
        } else {
            0nat
        }
    }
}

/// Counting distributes over concatenation.
pub proof fn lemma_count_char_add(a: Seq<char>, b: Seq<char>, c: char)
    ensures
        count_char(a + b, c) == count_char(a, c) + count_char(b, c),
    decreases b.len(),
{
    if b.len() == 0 {
        assert(a + b =~= a);
    } else {
        lemma_count_char_add(a, b.drop_last(), c);
        assert((a + b).drop_last() =~= a + b.drop_last());
    }
}

/// A sequence free of `c` counts zero.
pub proof fn lemma_count_char_absent(s: Seq<char>, c: char)
    requires
        forall|i: int| 0 <= i < s.len() ==> s[i] != c,
    ensures
        count_char(s, c) == 0,
    decreases s.len(),
{
    if s.len() > 0 {
        lemma_count_char_absent(s.drop_last(), c);
    }
}

/// The characters of `s`, as a vector.
pub fn str_chars(s: &str) -> (v: Vec<char>)
    ensures
        v@ == s@,
{
    let n = s.unicode_len();
    let mut v: Vec<char> = Vec::new();
    let mut i: usize = 0;
    while i < n
        invariant
            n == s@.len(),
            i <= n,
            v@ =~= s@.take(i as int),
        decreases n - i,
    {
        let c = s.get_char(i);
        v.push(c);
        i = i + 1;
        proof {
            assert(v@ =~= s@.take(i as int));
        }
    }
    proof {
        assert(s@.take(n as int) =~= s@);
    }
    v
}

/// Whether `pat` occurs in `hay` at position `i` exactly.
pub fn matches_here(hay: &Vec<char>, pat: &Vec<char>, i: usize) -> (b: bool)
    requires
        i + pat@.len() <= hay@.len(),
        hay@.len() <= usize::MAX,
    ensures
        b == match_at(hay@, pat@, i as int),
{
    let mut k: usize = 0;
    while k < pat.len()
        invariant
            i + pat@.len() <= hay@.len(),
            hay@.len() <= usize::MAX,
            k <= pat@.len(),
            forall|m: int| 0 <= m < k ==> hay@[i + m] == pat@[m],
        decreases pat@.len() - k,
    {
        proof {
            assert(i + k < hay@.len());
        }
        if hay[i + k] != pat[k] {
            proof {
                assert(hay@[i + k] != pat@[k as int]);
            }
            return false;
        }
        k = k + 1;
    }
    true
}

/// The first occurrence of `pat` in `hay`, if any.
pub fn find_sub(hay: &Vec<char>, pat: &Vec<char>) -> (r: Option<usize>)
    ensures
        match r {
            Some(i) => first_match(hay@, pat@, i as int),
            None => !contains_sub(hay@, pat@),
        },
{
    if pat.len() > hay.len() {
        proof {
            assert(forall|i: int| !match_at(hay@, pat@, i));
        }
        return None;
    }
    if pat.len() == 0 {
        proof {
            assert(match_at(hay@, pat@, 0));
        }
        return Some(0);
    }
    let bound = hay.len() - pat.len();
    let mut i: usize = 0;
    while i <= bound
        invariant
            1 <= pat@.len() <= hay@.len(),
            hay@.len() <= usize::MAX,
            bound == hay@.len() - pat@.len(),
            i <= bound + 1,
            forall|j: int| 0 <= j < i ==> !match_at(hay@, pat@, j),
        decreases bound + 1 - i,
    {
        if matches_here(hay, pat, i) {
            return Some(i);
        }
        i = i + 1;
    }
    proof {
        assert forall|j: int| !match_at(hay@, pat@, j) by {
            if 0 <= j && j + pat@.len() <= hay@.len() {
                assert(j < i);
            }
        }
    }
    None
}

/// Whether two strings spell the same characters.
pub fn str_eq(a: &str, b: &str) -> (r: bool)
    ensures
        r == (a@ == b@),
{
    let va = str_chars(a);
    let vb = str_chars(b);
    if va.len() != vb.len() {
        return false;
    }
    let mut i: usize = 0;
    while i < va.len()
        invariant
            va@ == a@,
            vb@ == b@,
            a@.len() == b@.len(),
            i <= a@.len(),
            forall|k: int| 0 <= k < i ==> a@[k] == b@[k],
        decreases a@.len() - i,
    {
        if va[i] != vb[i] {
            proof {
                assert(a@[i as int] != b@[i as int]);
            }
            return false;
        }
        i = i + 1;
    }
    proof {
        assert(a@ =~= b@);
    }
    true
}

/// Count of `c` among the characters of `v`.
pub fn count_char_in(v: &Vec<char>, c: char) -> (n: usize)
    ensures
        n == count_char(v@, c),
{
    let mut n: usize = 0;
    let mut i: usize = 0;
    while i < v.len()
        invariant
            i <= v@.len(),
            n == count_char(v@.take(i as int), c),
            n <= i,
        decreases v@.len() - i,
    {
        proof {
            assert(v@.take(i + 1).drop_last() =~= v@.take(i as int));
            assert(v@.take(i + 1).last() == v@[i as int]);
        }
        if v[i] == c {
            n = n + 1;
        }
        i = i + 1;
    }
    proof {
        assert(v@.take(v@.len() as int) =~= v@);
    }
    n
}

} // verus!
