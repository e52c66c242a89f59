//! The release catalog: filtering upstream repository tags down to real
//! Go releases, normalizing them, ordering them, and naming the highest
//! one as `latest`.

use vstd::prelude::*;

use crate::strkit::{match_at, matches_here, str_chars, str_eq};
use crate::version::{alpha_chars, beta_chars, rc_chars, to_semantic, from_go_version};

use vstd::string::StrSliceExecFns;

verus! {

/// Decimal digit.
pub open spec fn is_digit(c: char) -> bool {
    '0' <= c && c <= '9'
}

/// Value of one decimal digit character.
pub open spec fn digit_val(c: char) -> int {
    c as u32 - 48
}

/// Value of a run of decimal digit characters.
pub open spec fn digits_val(s: Seq<char>) -> int
    decreases s.len(),
{
    if s.len() == 0 {
        0
    } else {
        digits_val(s.drop_last()) * 10 + digit_val(s.last())
    }
}

/// Ten to the `n`.
pub open spec fn pow10(n: nat) -> nat
    decreases n,
{
    if n == 0 {
        1
    } else {
        10 * pow10((n - 1) as nat)
    }
}

/// `pow10` grows with its argument.
pub proof fn lemma_pow10_mono(a: nat, b: nat)
    requires
        a <= b,
    ensures
        pow10(a) <= pow10(b),
    decreases b,
{
    if a < b {
        lemma_pow10_mono(a, (b - 1) as nat);
        assert(pow10((b - 1) as nat) <= 10 * pow10((b - 1) as nat));
    }
}

/// Eighteen-digit runs fit comfortably in 64 bits.
pub proof fn lemma_pow10_18()
    ensures
        pow10(18) == 1000000000000000000,
{
    reveal_with_fuel(pow10, 19);
}

/// The first position at or after `i` that does not hold a digit, or
/// the end of `s`.
pub open spec fn digits_end(s: Seq<char>, i: int) -> int
    decreases s.len() - i,
{
    if i < 0 {
        0
    } else if i >= s.len() {
        s.len() as int
    } else if !is_digit(s[i]) {
        i
    } else {
        digits_end(s, i + 1)
    }
}

/// Everything from `i` to the digit run's end is a digit.
pub proof fn lemma_digits_end_digits(s: Seq<char>, i: int)
    requires
        0 <= i <= s.len(),
    ensures
        i <= digits_end(s, i) <= s.len(),
        forall|k: int| i <= k < digits_end(s, i) ==> is_digit(s[k]),
    decreases s.len() - i,
{
    if i < s.len() && is_digit(s[i]) {
        lemma_digits_end_digits(s, i + 1);
    }
}

/// The first non-digit position, computed.
pub fn digits_end_exec(v: &Vec<char>, start: usize) -> (r: usize)
    requires
        start <= v@.len(),
    ensures
        r == digits_end(v@, start as int),
        start <= r <= v@.len(),
{
    let n = v.len();
    let mut i = start;
    while i < n && v[i] >= '0' && v[i] <= '9'
        invariant
            start <= i <= n,
            n == v@.len(),
            digits_end(v@, start as int) == digits_end(v@, i as int),
        decreases n - i,
    {
        i = i + 1;
    }
    proof {
        lemma_digits_end_digits(v@, start as int);
    }
    i
}

/// The value of the digit run `v[a..b]`, as a 64-bit integer.
pub fn parse_digits(v: &Vec<char>, a: usize, b: usize) -> (r: u64)
    requires
        a <= b <= v@.len(),
        b - a <= 18,
        forall|k: int| a <= k < b ==> is_digit(v@[k]),
    ensures
        r == digits_val(v@.subrange(a as int, b as int)),
{
    let mut acc: u64 = 0;
    let mut i = a;
    proof {
        assert(v@.subrange(a as int, a as int) =~= Seq::<char>::empty());
    }
    while i < b
        invariant
            a <= i <= b <= v@.len(),
            b - a <= 18,
            forall|k: int| a <= k < b ==> is_digit(v@[k]),
            acc == digits_val(v@.subrange(a as int, i as int)),
            acc < pow10((i - a) as nat),
        decreases b - i,
    {
        let c = v[i];
        let d: u64 = (c as u32 as u64) - 48;
        proof {
            let t = v@.subrange(a as int, i + 1);
            assert(t.drop_last() =~= v@.subrange(a as int, i as int));
            assert(t.last() == v@[i as int]);
            lemma_pow10_mono((i + 1 - a) as nat, 18);
            lemma_pow10_18();
        }
        acc = acc * 10 + d;
        i = i + 1;
    }
    acc
}

/// End of the dotted numeric part of a token: up to three digit runs
/// separated by dots.
pub open spec fn num_end(t: Seq<char>) -> int {
    let e1 = digits_end(t, 0);
    if e1 < t.len() && t[e1] == '.' {
        let e2 = digits_end(t, e1 + 1);
        if e2 < t.len() && t[e2] == '.' {
            digits_end(t, e2 + 1)
        } else {
            e2
        }
    } else {
        e1
    }
}

/// What may follow the numeric part: nothing, or one prerelease marker
/// and a digit run of at most eighteen digits.
pub open spec fn tail_ok(t: Seq<char>) -> bool {
    let ne = num_end(t);
    ||| ne == t.len()
    ||| (match_at(t, alpha_chars(), ne) && digits_end(t, ne + 5) == t.len() && t.len() - ne - 5
        <= 18)
    ||| (match_at(t, beta_chars(), ne) && digits_end(t, ne + 4) == t.len() && t.len() - ne - 4
        <= 18)
    ||| (match_at(t, rc_chars(), ne) && digits_end(t, ne + 2) == t.len() && t.len() - ne - 2
        <= 18)
}

/// A token the catalog accepts: one to three nonempty numeric
/// components of at most eighteen digits each, followed by nothing or
/// by a prerelease marker and its numeral.
pub open spec fn is_catalog_token(t: Seq<char>) -> bool {
    let e1 = digits_end(t, 0);
    &&& 0 < e1 <= 18
    &&& (e1 < t.len() && t[e1] == '.' ==> {
        let e2 = digits_end(t, e1 + 1);
        &&& e1 + 1 < e2
        &&& e2 - e1 - 1 <= 18
        &&& (e2 < t.len() && t[e2] == '.' ==> {
            let e3 = digits_end(t, e2 + 1);
            &&& e2 + 1 < e3
            &&& e3 - e2 - 1 <= 18
        })
    })
    &&& tail_ok(t)
}

/// The major component's value.
pub open spec fn major_of(t: Seq<char>) -> int {
    digits_val(t.subrange(0, digits_end(t, 0)))
}

/// The minor component's value; an elided component counts as zero.
pub open spec fn minor_of(t: Seq<char>) -> int {
    let e1 = digits_end(t, 0);
    if e1 < t.len() && t[e1] == '.' {
        digits_val(t.subrange(e1 + 1, digits_end(t, e1 + 1)))
    } else {
        0
    }
}

/// The patch component's value; an elided component counts as zero.
pub open spec fn patch_of(t: Seq<char>) -> int {
    let e1 = digits_end(t, 0);
    if e1 < t.len() && t[e1] == '.' {
        let e2 = digits_end(t, e1 + 1);
        if e2 < t.len() && t[e2] == '.' {
            digits_val(t.subrange(e2 + 1, digits_end(t, e2 + 1)))
        } else {
            0
        }
    } else {
        0
    }
}

/// Prerelease standing of a token: `alpha` before `beta` before `rc`
/// before a full release.
pub open spec fn rank_of(t: Seq<char>) -> int {
    let ne = num_end(t);
    if ne == t.len() {
        3
    } else if match_at(t, alpha_chars(), ne) {
        0
    } else if match_at(t, beta_chars(), ne) {
        1
    } else if match_at(t, rc_chars(), ne) {
        2
    } else {
        3
    }
}

/// The prerelease numeral's value; zero for a full release or a bare
/// marker.
pub open spec fn pre_of(t: Seq<char>) -> int {
    let ne = num_end(t);
    if ne == t.len() {
        0
    } else if match_at(t, alpha_chars(), ne) {
        digits_val(t.subrange(ne + 5, t.len() as int))
    } else if match_at(t, beta_chars(), ne) {
        digits_val(t.subrange(ne + 4, t.len() as int))
    } else if match_at(t, rc_chars(), ne) {
        digits_val(t.subrange(ne + 2, t.len() as int))
    } else {
        0
    }
}

/// The numeric essence of one accepted token, paired with its
/// normalized spelling.
pub struct ReleaseVersion {
    /// Major component.
    pub major: u64,
    /// Minor component; zero when elided.
    pub minor: u64,
    /// Patch component; zero when elided.
    pub patch: u64,
    /// Prerelease standing: `alpha`, `beta` and `rc` in that order
    /// below a full release.
    pub rank: u64,
    /// Prerelease numeral; zero for a full release.
    pub pre: u64,
    /// The normalized semantic-version spelling.
    pub semantic: String,
}

/// Parses an accepted token into its numeric essence.
fn parse_token(v: &Vec<char>) -> (r: Option<(u64, u64, u64, u64, u64)>)
    ensures
        match r {
            Some(k) => {
                &&& is_catalog_token(v@)
                &&& k.0 == major_of(v@)
                &&& k.1 == minor_of(v@)
                &&& k.2 == patch_of(v@)
                &&& k.3 == rank_of(v@)
                &&& k.4 == pre_of(v@)
            },
            None => !is_catalog_token(v@),
        },
{
    let n = v.len();
    let e1 = digits_end_exec(v, 0);
    if e1 == 0 || e1 > 18 {
        return None;
    }
    proof {
        lemma_digits_end_digits(v@, 0);
    }
    let major = parse_digits(v, 0, e1);
    let mut minor: u64 = 0;
    let mut patch: u64 = 0;
    let ne: usize;
    if e1 < n && v[e1] == '.' {
        let e2 = digits_end_exec(v, e1 + 1);
        if e2 == e1 + 1 || e2 - e1 - 1 > 18 {
            return None;
        }
        proof {
            lemma_digits_end_digits(v@, e1 + 1);
        }
        minor = parse_digits(v, e1 + 1, e2);
        if e2 < n && v[e2] == '.' {
            let e3 = digits_end_exec(v, e2 + 1);
            if e3 == e2 + 1 || e3 - e2 - 1 > 18 {
                return None;
            }
            proof {
                lemma_digits_end_digits(v@, e2 + 1);
            }
            patch = parse_digits(v, e2 + 1, e3);
            ne = e3;
        } else {
            ne = e2;
        }
    } else {
        ne = e1;
    }
    proof {
        assert(ne == num_end(v@));
    }
    if ne == n {
        return Some((major, minor, patch, 3, 0));
    }
    let alpha = str_chars("alpha");
    let beta = str_chars("beta");
    let rc = str_chars("rc");
    proof {
        reveal_strlit("alpha");
        reveal_strlit("beta");
        reveal_strlit("rc");
        assert(alpha@ =~= alpha_chars());
        assert(beta@ =~= beta_chars());
        assert(rc@ =~= rc_chars());
    }
    if n - ne >= 5 && matches_here(v, &alpha, ne) {
        let te = digits_end_exec(v, ne + 5);
        if te != n || n - ne - 5 > 18 {
            return None;
        }
        proof {
            lemma_digits_end_digits(v@, ne + 5);
        }
        let pre = parse_digits(v, ne + 5, n);
        return Some((major, minor, patch, 0, pre));
    }
    if n - ne >= 4 && matches_here(v, &beta, ne) {
        proof {
            assert(!match_at(v@, alpha_chars(), ne as int)) by {
                if match_at(v@, alpha_chars(), ne as int) {
                    assert(v@[ne as int] == 'a');
                }
            }
        }
        let te = digits_end_exec(v, ne + 4);
        if te != n || n - ne - 4 > 18 {
            return None;
        }
        proof {
            lemma_digits_end_digits(v@, ne + 4);
        }
        let pre = parse_digits(v, ne + 4, n);
        return Some((major, minor, patch, 1, pre));
    }
    if n - ne >= 2 && matches_here(v, &rc, ne) {
        proof {
            assert(!match_at(v@, alpha_chars(), ne as int) && !match_at(
                v@,
                beta_chars(),
                ne as int,
            )) by {
                if match_at(v@, alpha_chars(), ne as int) {
                    assert(v@[ne as int] == 'a');
                }
                if match_at(v@, beta_chars(), ne as int) {
                    assert(v@[ne as int] == 'b');
                }
            }
        }
        let te = digits_end_exec(v, ne + 2);
        if te != n || n - ne - 2 > 18 {
            return None;
        }
        proof {
            lemma_digits_end_digits(v@, ne + 2);
        }
        let pre = parse_digits(v, ne + 2, n);
        return Some((major, minor, patch, 2, pre));
    }
    proof {
        assert(!match_at(v@, alpha_chars(), ne as int)) by {
            if ne + 5 > v@.len() {
            } else {
                assert(n - ne >= 5);
            }
        }
        assert(!match_at(v@, beta_chars(), ne as int)) by {
            if ne + 4 > v@.len() {
            } else {
                assert(n - ne >= 4);
            }
        }
        assert(!match_at(v@, rc_chars(), ne as int)) by {
            if ne + 2 > v@.len() {
            } else {
                assert(n - ne >= 2);
            }
        }
        assert(!tail_ok(v@));
    }
    None
}

/// A version's numeric essence, in comparison order.
pub open spec fn rv_key(e: ReleaseVersion) -> (int, int, int, int, int) {
    (e.major as int, e.minor as int, e.patch as int, e.rank as int, e.pre as int)
}

/// Ordering of numeric essences: major, then minor, then patch, then
/// prerelease standing, then the prerelease numeral.
pub open spec fn key_le(a: (int, int, int, int, int), b: (int, int, int, int, int)) -> bool {
    ||| a.0 < b.0
    ||| (a.0 == b.0 && (a.1 < b.1 || (a.1 == b.1 && (a.2 < b.2 || (a.2 == b.2 && (a.3 < b.3 || (
    a.3 == b.3 && a.4 <= b.4)))))))
}

/// A catalog entry's whole content: its numeric essence and spelling.
pub open spec fn rv_view(e: ReleaseVersion) -> ((int, int, int, int, int), Seq<char>) {
    (rv_key(e), e.semantic@)
}

/// The numeric essence an accepted token parses to.
pub open spec fn token_key(t: Seq<char>) -> (int, int, int, int, int) {
    (major_of(t), minor_of(t), patch_of(t), rank_of(t), pre_of(t))
}

/// The catalog entry an accepted token yields.
pub open spec fn token_entry(t: Seq<char>) -> ((int, int, int, int, int), Seq<char>) {
    (token_key(t), to_semantic(t))
}

/// The character sequences of a list of strings.
pub open spec fn views_of(tags: Seq<String>) -> Seq<Seq<char>> {
    tags.map_values(|s: String| s@)
}

/// The contents of a list of catalog entries.
pub open spec fn rv_views(es: Seq<ReleaseVersion>) -> Seq<((int, int, int, int, int), Seq<char>)> {
    es.map_values(|e: ReleaseVersion| rv_view(e))
}

/// The fixed tag prefix that marks a release tag.
pub open spec fn go_prefix() -> Seq<char> {
    seq!['g', 'o']
}

/// The suffix a dereferenced-tag listing artifact carries.
pub open spec fn deref_suffix() -> Seq<char> {
    seq!['^', '{', '}']
}

/// A tag that is an artifact of the tag-listing mechanism, not a
/// release.
pub open spec fn is_deref_artifact(tag: Seq<char>) -> bool {
    tag.len() >= 3 && tag.subrange(tag.len() - 3, tag.len() as int) == deref_suffix()
}

/// A tag the catalog keeps: a real release tag carrying the fixed
/// prefix and an accepted token after it.
pub open spec fn is_release_tag(tag: Seq<char>) -> bool {
    &&& !is_deref_artifact(tag)
    &&& match_at(tag, go_prefix(), 0)
    &&& is_catalog_token(tag.skip(2))
}

/// The tokens of the kept tags, in listing order.
pub open spec fn surviving_tokens(tags: Seq<Seq<char>>) -> Seq<Seq<char>>
    decreases tags.len(),
{
    if tags.len() == 0 {
        Seq::empty()
    } else if is_release_tag(tags.last()) {
        surviving_tokens(tags.drop_last()).push(tags.last().skip(2))
    } else {
        surviving_tokens(tags.drop_last())
    }
}

/// The catalog entries the kept tags yield, in listing order.
pub open spec fn catalog_entries(tags: Seq<Seq<char>>) -> Seq<
    ((int, int, int, int, int), Seq<char>),
>
    decreases tags.len(),
{
    if tags.len() == 0 {
        Seq::empty()
    } else if is_release_tag(tags.last()) {
        catalog_entries(tags.drop_last()).push(token_entry(tags.last().skip(2)))
    } else {
        catalog_entries(tags.drop_last())
    }
}

/// Catalog entries stand in ascending order of their numeric essence.
pub open spec fn sorted_rv(es: Seq<ReleaseVersion>) -> bool {
    forall|i: int, j: int|
        0 <= i < j < es.len() ==> key_le(rv_key(es[i]), rv_key(es[j]))
}

/// The released-version catalog: the kept versions in ascending order,
/// and the highest one under the `latest` pointer.
pub struct ReleaseCatalog {
    /// The kept versions, ascending.
    pub versions: Vec<ReleaseVersion>,
    /// The highest version's semantic spelling, absent only when no
    /// tag survived.
    pub latest: Option<String>,
}

/// No two catalog entries carry the same content.
pub open spec fn distinct_rv(es: Seq<ReleaseVersion>) -> bool {
    forall|i: int, j: int| 0 <= i < j < es.len() ==> rv_view(es[i]) != rv_view(es[j])
}

/// Inserting into a sequence adds the element to its element set.
proof fn lemma_insert_to_set<A>(s: Seq<A>, i: int, a: A)
    requires
        0 <= i <= s.len(),
    ensures
        s.insert(i, a).to_set() == s.to_set().insert(a),
{
    let t = s.insert(i, a);
    s.insert_ensures(i, a);
    assert forall|x: A| t.to_set().contains(x) implies s.to_set().insert(a).contains(x) by {
        let k = choose|k: int| 0 <= k < t.len() && t[k] == x;
        if k < i {
            assert(s[k] == x);
            assert(s.contains(x));
        } else if k > i {
            assert(s[k - 1] == x);
            assert(s.contains(x));
        }
    }
    assert forall|x: A| s.to_set().insert(a).contains(x) implies t.to_set().contains(x) by {
        if x == a {
            assert(t[i as int] == x);
        } else {
            let j = choose|j: int| 0 <= j < s.len() && s[j] == x;
            if j < i {
                assert(t[j] == x);
            } else {
                assert(t[j + 1] == x);
            }
        }
        assert(t.contains(x));
    }
    assert(t.to_set() =~= s.to_set().insert(a));
}

/// Dropping the last element removes at most that element from the
/// element set.
proof fn lemma_drop_last_to_set<A>(s: Seq<A>)
    requires
        s.len() > 0,
    ensures
        s.to_set() == s.drop_last().to_set().insert(s.last()),
{
    let t = s.drop_last();
    assert forall|x: A| s.to_set().contains(x) implies t.to_set().insert(s.last()).contains(
        x,
    ) by {
        let k = choose|k: int| 0 <= k < s.len() && s[k] == x;
        if k < s.len() - 1 {
            assert(t[k] == x);
            assert(t.contains(x));
        }
    }
    assert forall|x: A| t.to_set().insert(s.last()).contains(x) implies s.to_set().contains(
        x,
    ) by {
        if x == s.last() {
            assert(s[s.len() - 1] == x);
        } else {
            let j = choose|j: int| 0 <= j < t.len() && t[j] == x;
            assert(s[j] == x);
        }
        assert(s.contains(x));
    }
    assert(s.to_set() =~= t.to_set().insert(s.last()));
}

/// Whether two catalog entries carry the same content.
fn rv_same(a: &ReleaseVersion, b: &ReleaseVersion) -> (r: bool)
    ensures
        r == (rv_view(*a) == rv_view(*b)),
{
    if a.major != b.major || a.minor != b.minor || a.patch != b.patch || a.rank != b.rank
        || a.pre != b.pre {
        return false;
    }
    str_eq(a.semantic.as_str(), b.semantic.as_str())
}

/// Whether an entry of this content already stands in the list.
fn contains_rv(v: &Vec<ReleaseVersion>, e: &ReleaseVersion) -> (r: bool)
    ensures
        r == rv_views(v@).contains(rv_view(*e)),
{
    let mut j: usize = 0;
    while j < v.len()
        invariant
            j <= v@.len(),
            forall|m: int| 0 <= m < j ==> rv_views(v@)[m] != rv_view(*e),
        decreases v@.len() - j,
    {
        if rv_same(&v[j], e) {
            proof {
                assert(rv_views(v@)[j as int] == rv_view(*e));
            }
            return true;
        }
        proof {
            assert(rv_views(v@)[j as int] == rv_view(v@[j as int]));
        }
        j = j + 1;
    }
    proof {
        assert(forall|m: int| 0 <= m < rv_views(v@).len() ==> rv_views(v@)[m] != rv_view(*e));
    }
    false
}

/// Ordering of two catalog entries, computed.
fn rv_le(a: &ReleaseVersion, b: &ReleaseVersion) -> (r: bool)
    ensures
        r == key_le(rv_key(*a), rv_key(*b)),
{
    if a.major != b.major {
        a.major < b.major
    } else if a.minor != b.minor {
        a.minor < b.minor
    } else if a.patch != b.patch {
        a.patch < b.patch
    } else if a.rank != b.rank {
        a.rank < b.rank
    } else {
        a.pre <= b.pre
    }
}

/// Builds the released-version catalog from the raw upstream tag list:
/// listing artifacts and foreign tags are discarded, the rest are
/// normalized, deduplicated and sorted, and the highest version
/// becomes `latest`.
pub fn catalog(tags: &Vec<String>) -> (r: ReleaseCatalog)
    ensures
        rv_views(r.versions@).to_set() == catalog_entries(views_of(tags@)).to_set(),
        distinct_rv(r.versions@),
        sorted_rv(r.versions@),
        match r.latest {
            Some(s) => r.versions@.len() > 0 && s@ == r.versions@.last().semantic@,
            None => r.versions@.len() == 0,
        },
{
    let mut entries: Vec<ReleaseVersion> = Vec::new();
    let mut i: usize = 0;
    proof {
        assert(views_of(tags@).take(0) =~= Seq::<Seq<char>>::empty());
        assert(surviving_tokens(Seq::<Seq<char>>::empty()) =~= Seq::<Seq<char>>::empty());
        assert(rv_views(entries@) =~= catalog_entries(views_of(tags@).take(0)));
    }
    while i < tags.len()
        invariant
            i <= tags@.len(),
            rv_views(entries@) == catalog_entries(views_of(tags@).take(i as int)),
        decreases tags@.len() - i,
    {
        let ghost prev = views_of(tags@).take(i as int);
        let ghost cur = views_of(tags@).take(i + 1);
        proof {
            assert(cur.drop_last() =~= prev);
            assert(cur.last() == tags@[i as int]@);
        }
        let tag: &String = &tags[i];
        let tv = str_chars(tag.as_str());
        let n = tv.len();
        let deref = n >= 3 && tv[n - 3] == '^' && tv[n - 2] == '{' && tv[n - 1] == '}';
        proof {
            if deref {
                assert(tag@.subrange(n - 3, n as int) =~= deref_suffix());
            } else if n >= 3 && tag@.subrange(n - 3, n as int) == deref_suffix() {
                assert(tag@[n - 3] == '^' && tag@[n - 2] == '{' && tag@[n - 1] == '}');
            }
            assert(deref == is_deref_artifact(tag@));
        }
        let has_prefix = n >= 2 && tv[0] == 'g' && tv[1] == 'o';
        proof {
            assert(has_prefix == match_at(tag@, go_prefix(), 0));
        }
        let mut kept = false;
        if !deref && has_prefix {
            let tok = tag.as_str().substring_char(2, n);
            let tokv = str_chars(tok);
            proof {
                assert(tokv@ =~= tag@.skip(2));
            }
            match parse_token(&tokv) {
                Some(k) => {
                    let sem = from_go_version(tok);
                    let e = ReleaseVersion {
                        major: k.0,
                        minor: k.1,
                        patch: k.2,
                        rank: k.3,
                        pre: k.4,
                        semantic: sem,
                    };
                    proof {
                        assert(rv_view(e) == token_entry(tag@.skip(2)));
                    }
                    entries.push(e);
                    kept = true;
                    proof {
                        assert(is_release_tag(tag@));
                        assert(catalog_entries(cur) == catalog_entries(prev).push(
                            token_entry(tag@.skip(2)),
                        ));
                        assert(rv_views(entries@) =~= catalog_entries(cur));
                    }
                },
                None => {
                    proof {
                        assert(!is_release_tag(tag@));
                    }
                },
            }
        } else {
            proof {
                assert(!is_release_tag(tag@));
            }
        }
        if !kept {
            proof {
                assert(!is_release_tag(tag@));
                assert(catalog_entries(cur) == catalog_entries(prev));
            }
        }
        i = i + 1;
    }
    proof {
        assert(views_of(tags@).take(tags@.len() as int) =~= views_of(tags@));
    }
    let ghost all_views = rv_views(entries@);
    let mut sorted_v: Vec<ReleaseVersion> = Vec::new();
    proof {
        assert(rv_views(sorted_v@) =~= Seq::<((int, int, int, int, int), Seq<char>)>::empty());
        assert(rv_views(sorted_v@).to_set().union(rv_views(entries@).to_set())
            =~= all_views.to_set());
    }
    while entries.len() > 0
        invariant
            sorted_rv(sorted_v@),
            distinct_rv(sorted_v@),
            rv_views(sorted_v@).to_set().union(rv_views(entries@).to_set())
                == all_views.to_set(),
        decreases entries@.len(),
    {
        let ghost entries_before = entries@;
        let e = entries.pop().unwrap();
        proof {
            assert(rv_views(entries_before.drop_last()) =~= rv_views(entries_before).drop_last());
            lemma_drop_last_to_set(rv_views(entries_before));
            assert(rv_views(entries_before).last() == rv_view(e));
            assert(rv_views(entries_before).to_set() == rv_views(entries@).to_set().insert(
                rv_view(e),
            ));
        }
        if contains_rv(&sorted_v, &e) {
            proof {
                assert(rv_views(sorted_v@).to_set().contains(rv_view(e)));
                assert(rv_views(sorted_v@).to_set().union(rv_views(entries@).to_set())
                    =~= all_views.to_set());
            }
        } else {
            let mut pos: usize = 0;
            while pos < sorted_v.len() && rv_le(&sorted_v[pos], &e)
                invariant
                    pos <= sorted_v@.len(),
                    sorted_rv(sorted_v@),
                    forall|m: int| 0 <= m < pos ==> key_le(rv_key(sorted_v@[m]), rv_key(e)),
                decreases sorted_v@.len() - pos,
            {
                pos = pos + 1;
            }
            let ghost sorted_before = sorted_v@;
            proof {
                assert forall|m: int|
                    pos <= m < sorted_before.len() implies key_le(
                    rv_key(e),
                    rv_key(sorted_before[m]),
                ) by {
                    assert(!key_le(rv_key(sorted_before[pos as int]), rv_key(e)));
                    assert(key_le(rv_key(e), rv_key(sorted_before[pos as int])));
                    if m > pos {
                        assert(key_le(rv_key(sorted_before[pos as int]), rv_key(sorted_before[m])));
                    }
                }
            }
            sorted_v.insert(pos, e);
            proof {
                sorted_before.insert_ensures(pos as int, e);
                assert(sorted_rv(sorted_v@)) by {
                    assert forall|a: int, b: int|
                        0 <= a < b < sorted_v@.len() implies key_le(
                        rv_key(sorted_v@[a]),
                        rv_key(sorted_v@[b]),
                    ) by {
                        if a < pos && b < pos {
                        } else if a == pos || b == pos {
                        } else {
                        }
                    }
                }
                assert(!rv_views(sorted_before).contains(rv_view(e)));
                assert(distinct_rv(sorted_v@)) by {
                    assert forall|a: int, b: int|
                        0 <= a < b < sorted_v@.len() implies rv_view(sorted_v@[a]) != rv_view(
                        sorted_v@[b],
                    ) by {
                        if a == pos {
                            assert(sorted_v@[b] == sorted_before[b - 1]);
                            assert(rv_views(sorted_before)[b - 1] == rv_view(sorted_before[b - 1]));
                        } else if b == pos {
                            assert(sorted_v@[a] == sorted_before[a]);
                            assert(rv_views(sorted_before)[a] == rv_view(sorted_before[a]));
                        } else {
                            let oa: int = if a < pos {
                                a
                            } else {
                                a - 1
                            };
                            let ob: int = if b < pos {
                                b
                            } else {
                                b - 1
                            };
                            assert(sorted_v@[a] == sorted_before[oa]);
                            assert(sorted_v@[b] == sorted_before[ob]);
                        }
                    }
                }
                assert(rv_views(sorted_v@) =~= rv_views(sorted_before).insert(
                    pos as int,
                    rv_view(e),
                ));
                lemma_insert_to_set(rv_views(sorted_before), pos as int, rv_view(e));
                assert(rv_views(sorted_v@).to_set().union(rv_views(entries@).to_set())
                    =~= all_views.to_set());
            }
        }
    }
    proof {
        assert(rv_views(entries@) =~= Seq::<((int, int, int, int, int), Seq<char>)>::empty());
        assert(rv_views(entries@).to_set() =~= Set::<((int, int, int, int, int), Seq<
            char,
        >)>::empty());
        assert(rv_views(sorted_v@).to_set() =~= all_views.to_set());
    }
    let latest: Option<String> = if sorted_v.len() > 0 {
        Some(sorted_v[sorted_v.len() - 1].semantic.clone())
    } else {
        None
    };
    ReleaseCatalog { versions: sorted_v, latest }
}

} // verus!
