//! The normalizer's structural guarantees: a well-formed native token
//! normalizes to exactly three numeric components, normalizing an
//! already-normalized value changes nothing, and converting back to
//! the native spelling undoes normalization on canonical tokens.

use vstd::prelude::*;

use crate::strkit::{
    contains_sub, count_char, first_match, lemma_absent_char_no_match, lemma_count_char_absent,
    lemma_count_char_add, lemma_first_match_unique, match_at,
};
use crate::tags::{digits_end, is_digit, lemma_digits_end_digits, num_end};
use crate::version::{
    alpha_chars, beta_chars, elided_suffix, lemma_remove_append, marker_active, rc_chars,
    remove_dashes, spliced, squash_zero_dash, strip_tail_zeros, to_native, to_semantic,
};

verus! {

/// A well-formed native version token: one to three nonempty digit
/// runs separated by dots, optionally followed by one prerelease
/// marker and a digit run.
pub open spec fn is_native_token(t: Seq<char>) -> bool {
    let e1 = digits_end(t, 0);
    &&& 0 < e1
    &&& (e1 < t.len() && t[e1] == '.' ==> {
        let e2 = digits_end(t, e1 + 1);
        &&& e1 + 1 < e2
        &&& (e2 < t.len() && t[e2] == '.' ==> e2 + 1 < digits_end(t, e2 + 1))
    })
    &&& marker_tail_ok(t)
}

/// The tail after the numeric part: nothing, or one marker and digits.
pub open spec fn marker_tail_ok(t: Seq<char>) -> bool {
    let ne = num_end(t);
    ||| ne == t.len()
    ||| (match_at(t, alpha_chars(), ne) && digits_end(t, ne + 5) == t.len())
    ||| (match_at(t, beta_chars(), ne) && digits_end(t, ne + 4) == t.len())
    ||| (match_at(t, rc_chars(), ne) && digits_end(t, ne + 2) == t.len())
}

/// `s` spells exactly three dot-separated nonempty digit runs.
pub open spec fn three_numeric_components(s: Seq<char>) -> bool {
    exists|i: int, j: int|
        {
            &&& 0 < i
            &&& i + 1 < j
            &&& j + 1 < s.len()
            &&& #[trigger] s[i] == '.'
            &&& #[trigger] s[j] == '.'
            &&& forall|k: int| 0 <= k < s.len() && k != i && k != j ==> is_digit(s[k])
        }
}

/// A one-character sequence counts one occurrence of itself.
proof fn lemma_count_single(c: char, d: char)
    ensures
        count_char(seq![c], d) == if c == d {
            1nat
        } else {
            0nat
        },
{
    reveal_with_fuel(count_char, 2);
    assert(seq![c].drop_last() =~= Seq::<char>::empty());
}

/// A token without a marker normalizes to exactly three numeric
/// components.
///
/// This holds of every well-formed native token, which carries at most
/// two dots; a spelling with three or more dots is left untouched by
/// normalization and so keeps its extra components.
pub proof fn lemma_to_semantic_three_components(t: Seq<char>)
    requires
        is_native_token(t),
        num_end(t) == t.len(),
    ensures
        three_numeric_components(to_semantic(t)),
{
    let e1 = digits_end(t, 0);
    lemma_digits_end_digits(t, 0);
    let n = t.len() as int;
    if e1 < n && t[e1] == '.' {
        let e2 = digits_end(t, e1 + 1);
        lemma_digits_end_digits(t, e1 + 1);
        if e2 < n && t[e2] == '.' {
            let e3 = digits_end(t, e2 + 1);
            lemma_digits_end_digits(t, e2 + 1);
            assert(e3 == n);
            // every character is a digit or one of the two dots
            assert(forall|k: int| 0 <= k < n && k != e1 && k != e2 ==> is_digit(t[k]));
            lemma_no_markers_digits_dots(t);
            assert(count_char(t, '.') == 2) by {
                lemma_count_two_dots(t, e1, e2);
            }
            assert(to_semantic(t) == t + elided_suffix(t));
            assert(to_semantic(t) =~= t);
            assert(three_numeric_components(t)) by {
                assert(t[e1] == '.' && t[e2] == '.');
            }
        } else {
            assert(e2 == n);
            assert(forall|k: int| 0 <= k < n && k != e1 ==> is_digit(t[k]));
            lemma_no_markers_digits_dots(t);
            assert(count_char(t, '.') == 1) by {
                lemma_count_one_dot(t, e1);
            }
            let out = t + seq!['.', '0'];
            assert(to_semantic(t) == out);
            assert(three_numeric_components(out)) by {
                assert(out[e1] == '.');
                assert(out[n] == '.');
                assert(out[n + 1] == '0' && is_digit('0'));
                assert(forall|k: int| 0 <= k < out.len() && k != e1 && k != n ==> is_digit(out[k]));
            }
        }
    } else {
        assert(e1 == n);
        assert(forall|k: int| 0 <= k < n ==> is_digit(t[k]));
        lemma_no_markers_digits_dots(t);
        assert(count_char(t, '.') == 0) by {
            lemma_count_char_absent(t, '.');
        }
        let out = t + seq!['.', '0', '.', '0'];
        assert(to_semantic(t) == out);
        assert(three_numeric_components(out)) by {
            assert(out[n] == '.');
            assert(out[n + 2] == '.');
            assert(forall|k: int|
                0 <= k < out.len() && k != n && k != n + 2 ==> is_digit(out[k]));
        }
    }
}

/// A sequence of digits and dots contains no prerelease marker.
proof fn lemma_no_markers_digits_dots(t: Seq<char>)
    requires
        forall|k: int| 0 <= k < t.len() ==> is_digit(t[k]) || t[k] == '.',
    ensures
        !marker_active(t, alpha_chars()),
        !marker_active(t, beta_chars()),
        !marker_active(t, rc_chars()),
{
    assert(forall|k: int| 0 <= k < t.len() ==> t[k] != 'a');
    assert(forall|k: int| 0 <= k < t.len() ==> t[k] != 'b');
    assert(forall|k: int| 0 <= k < t.len() ==> t[k] != 'r');
    lemma_absent_char_no_match(t, alpha_chars(), 0);
    lemma_absent_char_no_match(t, beta_chars(), 0);
    lemma_absent_char_no_match(t, rc_chars(), 0);
}

/// Counting dots in a token with exactly one dot position.
proof fn lemma_count_one_dot(t: Seq<char>, d: int)
    requires
        0 <= d < t.len(),
        t[d] == '.',
        forall|k: int| 0 <= k < t.len() && k != d ==> is_digit(t[k]),
    ensures
        count_char(t, '.') == 1,
{
    let a = t.subrange(0, d);
    let m = t.subrange(d, d + 1);
    let b = t.subrange(d + 1, t.len() as int);
    assert(t =~= a + m + b);
    lemma_count_char_add(a + m, b, '.');
    lemma_count_char_add(a, m, '.');
    lemma_count_char_absent(a, '.');
    lemma_count_char_absent(b, '.');
    assert(m =~= seq!['.']);
    lemma_count_single('.', '.');
}

/// Counting dots in a token with exactly two dot positions.
proof fn lemma_count_two_dots(t: Seq<char>, d1: int, d2: int)
    requires
        0 <= d1 < d2 < t.len(),
        t[d1] == '.',
        t[d2] == '.',
        forall|k: int| 0 <= k < t.len() && k != d1 && k != d2 ==> is_digit(t[k]),
    ensures
        count_char(t, '.') == 2,
{
    let a = t.subrange(0, d2);
    let b = t.subrange(d2, t.len() as int);
    assert(t =~= a + b);
    lemma_count_char_add(a, b, '.');
    lemma_count_one_dot(a, d1);
    lemma_count_one_dot(b, 0);
}

/// The numeric part does not end in a zero component that the native
/// spelling would drop: `1.0.3` is canonical, `1.2.0` and `1.0rc1` are
/// not.
pub open spec fn no_redundant_zero(t: Seq<char>) -> bool {
    let ne = num_end(t);
    !(ne >= 2 && t[ne - 2] == '.' && t[ne - 1] == '0')
}

/// A dash-free sequence passes through the prerelease squash as it is.
proof fn lemma_squash_no_dash(s: Seq<char>)
    requires
        forall|k: int| 0 <= k < s.len() ==> s[k] != '-',
    ensures
        squash_zero_dash(s) == s,
    decreases s.len(),
{
    if s.len() > 0 {
        lemma_squash_no_dash(s.drop_last());
        assert(s.drop_last().push(s.last()) =~= s);
    }
}

/// A dash-free sequence passes through dash removal as it is.
proof fn lemma_remove_no_dash(s: Seq<char>)
    requires
        forall|k: int| 0 <= k < s.len() ==> s[k] != '-',
    ensures
        remove_dashes(s) == s,
    decreases s.len(),
{
    if s.len() > 0 {
        lemma_remove_no_dash(s.drop_last());
        assert(s.drop_last().push(s.last()) =~= s);
    }
}

/// A dash-free tail rides through the prerelease squash unchanged.
proof fn lemma_squash_append(x: Seq<char>, y: Seq<char>)
    requires
        forall|k: int| 0 <= k < y.len() ==> y[k] != '-',
    ensures
        squash_zero_dash(x + y) == squash_zero_dash(x) + y,
    decreases y.len(),
{
    if y.len() == 0 {
        assert(x + y =~= x);
        assert(squash_zero_dash(x) + y =~= squash_zero_dash(x));
    } else {
        lemma_squash_append(x, y.drop_last());
        let s = x + y;
        assert(s.len() > 0);
        assert(s.last() == y.last());
        assert(s.drop_last() =~= x + y.drop_last());
        assert(squash_zero_dash(s) == squash_zero_dash(x + y.drop_last()).push(y.last()));
        assert((squash_zero_dash(x) + y.drop_last()).push(y.last()) =~= squash_zero_dash(x) + y);
    }
}

/// Appending one `.0` pair adds one stripping step.
proof fn lemma_strip_pair(x: Seq<char>)
    ensures
        strip_tail_zeros(x + seq!['.', '0']) == strip_tail_zeros(x),
{
    let s = x + seq!['.', '0'];
    assert(s.len() >= 2);
    assert(s[s.len() - 2] == '.' && s[s.len() - 1] == '0');
    assert(s.take(s.len() - 2) =~= x);
}

/// A sequence that does not end in `.0` is already fully stripped.
proof fn lemma_strip_stopped(x: Seq<char>)
    requires
        !(x.len() >= 2 && x[x.len() - 2] == '.' && x[x.len() - 1] == '0'),
    ensures
        strip_tail_zeros(x) == x,
{
}

/// The elided suffix strips back off: the numeric part together with
/// its suffix strips to exactly the numeric part.
proof fn lemma_strip_num_suffix(t: Seq<char>)
    requires
        is_native_token(t),
        no_redundant_zero(t),
        forall|k: int| num_end(t) <= k < t.len() ==> t[k] != '.',
    ensures
        strip_tail_zeros(t.take(num_end(t)) + elided_suffix(t)) == t.take(num_end(t)),
{
    let ne = num_end(t);
    let num = t.take(ne);
    lemma_token_suffix_dots(t);
    lemma_numpart_chars(t);
    assert(!(num.len() >= 2 && num[num.len() - 2] == '.' && num[num.len() - 1] == '0'));
    lemma_strip_stopped(num);
    let d = count_char(t, '.');
    if d == 0 {
        assert(elided_suffix(t) == seq!['.', '0', '.', '0']);
        assert(num + seq!['.', '0', '.', '0'] =~= (num + seq!['.', '0']) + seq!['.', '0']);
        lemma_strip_pair(num + seq!['.', '0']);
        lemma_strip_pair(num);
    } else if d == 1 {
        assert(elided_suffix(t) == seq!['.', '0']);
        lemma_strip_pair(num);
    } else {
        assert(elided_suffix(t) == Seq::<char>::empty());
        assert(num + Seq::<char>::empty() =~= num);
    }
}

/// Conversion to the native spelling undoes normalization: on a
/// canonical token (one whose numeric part does not itself end in a
/// zero component), the round trip is the identity.
#[verifier::rlimit(60)]
pub proof fn lemma_round_trip(t: Seq<char>)
    requires
        is_native_token(t),
        no_redundant_zero(t),
    ensures
        to_native(to_semantic(t)) == t,
{
    let n = t.len() as int;
    let ne = num_end(t);
    let num = t.take(ne);
    lemma_numpart_chars(t);
    if ne == n {
        lemma_no_markers_digits_dots(t);
        let out = t + elided_suffix(t);
        assert(to_semantic(t) == out);
        assert(num =~= t);
        lemma_strip_num_suffix(t);
        assert(strip_tail_zeros(out) == t);
        assert(forall|k: int| 0 <= k < n ==> t[k] != '-');
        lemma_squash_no_dash(t);
        lemma_remove_no_dash(t);
    } else {
        let m = if match_at(t, alpha_chars(), ne) {
            alpha_chars()
        } else if match_at(t, beta_chars(), ne) {
            beta_chars()
        } else {
            rc_chars()
        };
        let lm = m.len() as int;
        assert(match_at(t, m, ne) && digits_end(t, ne + lm) == n);
        lemma_idem_marker(t, m);
        lemma_digits_end_digits(t, ne + lm);
        lemma_first_marker_position(t, m);
        let suffix = elided_suffix(t);
        let tail = t.skip(ne);
        let out = spliced(t, m);
        assert(out == num + suffix + seq!['-'] + tail);
        assert(to_semantic(t) == out);
        // the tail is the marker's letters and then digits
        assert(forall|j: int| 0 <= j < lm ==> #[trigger] t[ne + j] == m[j]);
        assert forall|j: int| 0 <= j < tail.len() implies tail[j] != '-' && tail[j] != '.' by {
            assert(tail[j] == t[ne + j]);
            if j < lm {
                assert(t[ne + j] == m[j]);
            }
        }
        // nothing strips off the end: the tail ends in a letter or digit
        assert(tail.len() >= 2);
        assert(out.last() == tail.last());
        assert(out[out.len() - 2] == tail[tail.len() - 2]);
        lemma_strip_stopped(out);
        // the squash removes exactly the spliced suffix
        lemma_squash_append(num + suffix + seq!['-'], tail);
        let head = num + suffix + seq!['-'];
        assert(head.last() == '-');
        assert(head.drop_last() =~= num + suffix);
        assert(squash_zero_dash(head) == strip_tail_zeros(squash_zero_dash(num + suffix)) + seq![
            '-',
        ]);
        assert(forall|k: int| 0 <= k < suffix.len() ==> suffix[k] == '.' || suffix[k] == '0');
        assert forall|k: int| 0 <= k < (num + suffix).len() implies (num + suffix)[k] != '-' by {
            if k < ne {
                assert((num + suffix)[k] == t[k]);
                assert(is_digit(t[k]) || t[k] == '.');
            }
        }
        lemma_squash_no_dash(num + suffix);
        lemma_strip_num_suffix(t);
        assert(squash_zero_dash(out) == (num + seq!['-']) + tail) by {
            assert(strip_tail_zeros(num + suffix) == num);
            assert((num + seq!['-']) + tail =~= (strip_tail_zeros(num) + seq!['-']) + tail);
            assert(strip_tail_zeros(num) =~= num) by {
                lemma_strip_stopped(num);
            }
        }
        // dropping the separator rejoins the two halves of the token
        lemma_remove_append(num + seq!['-'], tail);
        assert((num + seq!['-']).last() == '-');
        assert((num + seq!['-']).drop_last() =~= num);
        assert(remove_dashes(num + seq!['-']) == remove_dashes(num));
        assert(forall|k: int| 0 <= k < num.len() ==> num[k] != '-');
        lemma_remove_no_dash(num);
        assert(num + tail =~= t);
    }
}

/// In a marked token the marker's first occurrence is at the numeric
/// part's end, and the token's numeric part is canonical in shape.
proof fn lemma_first_marker_position(t: Seq<char>, m: Seq<char>)
    requires
        is_native_token(t),
        num_end(t) < t.len(),
        m == alpha_chars() || m == beta_chars() || m == rc_chars(),
        match_at(t, m, num_end(t)),
        digits_end(t, num_end(t) + m.len()) == t.len(),
    ensures
        first_match(t, m, num_end(t)),
        spliced(t, m) == t.take(num_end(t)) + elided_suffix(t) + seq!['-'] + t.skip(num_end(t)),
        forall|k: int| num_end(t) <= k < t.len() ==> t[k] != '.',
{
    let n = t.len() as int;
    let ne = num_end(t);
    let lm = m.len() as int;
    lemma_numpart_chars(t);
    lemma_digits_end_digits(t, ne + lm);
    assert(m[0] == 'a' || m[0] == 'b' || m[0] == 'r');
    assert(forall|j: int| 0 <= j < lm ==> #[trigger] t[ne + j] == m[j]);
    assert forall|k: int| ne <= k < n implies t[k] != '.' by {
        if k < ne + lm {
            assert(t[k] == m[k - ne]);
        }
    }
    assert forall|j: int| 0 <= j < ne implies !match_at(t, m, j) by {
        if j + lm <= n {
            assert(is_digit(t[j]) || t[j] == '.');
        }
    }
    assert(first_match(t, m, ne));
    lemma_first_match_unique(t, m, ne);
}

/// Every character of a token's numeric part is a digit or a dot.
proof fn lemma_numpart_chars(t: Seq<char>)
    requires
        is_native_token(t),
    ensures
        forall|k: int| 0 <= k < num_end(t) ==> is_digit(t[k]) || t[k] == '.',
{
    let e1 = digits_end(t, 0);
    lemma_digits_end_digits(t, 0);
    if e1 < t.len() && t[e1] == '.' {
        let e2 = digits_end(t, e1 + 1);
        lemma_digits_end_digits(t, e1 + 1);
        if e2 < t.len() && t[e2] == '.' {
            lemma_digits_end_digits(t, e2 + 1);
        }
    }
}

/// A token and the suffix it elides carry two dots between them.
proof fn lemma_token_suffix_dots(t: Seq<char>)
    requires
        is_native_token(t),
        forall|k: int| num_end(t) <= k < t.len() ==> t[k] != '.',
    ensures
        count_char(t, '.') + count_char(elided_suffix(t), '.') == 2,
        count_char(t, '.') <= 2,
{
    let n = t.len() as int;
    let ne = num_end(t);
    let e1 = digits_end(t, 0);
    lemma_digits_end_digits(t, 0);
    let head = t.take(ne);
    let tail = t.skip(ne);
    assert(t =~= head + tail);
    lemma_count_char_add(head, tail, '.');
    assert(forall|j: int| 0 <= j < tail.len() ==> tail[j] != '.');
    lemma_count_char_absent(tail, '.');
    if e1 < n && t[e1] == '.' {
        let e2 = digits_end(t, e1 + 1);
        lemma_digits_end_digits(t, e1 + 1);
        if e2 < n && t[e2] == '.' {
            let e3 = digits_end(t, e2 + 1);
            lemma_digits_end_digits(t, e2 + 1);
            assert(ne == e3);
            lemma_count_two_dots(head, e1, e2);
            assert(count_char(t, '.') == 2);
            assert(elided_suffix(t) == Seq::<char>::empty());
            lemma_count_char_absent(Seq::<char>::empty(), '.');
        } else {
            assert(ne == e2);
            lemma_count_one_dot(head, e1);
            assert(count_char(t, '.') == 1);
            assert(elided_suffix(t) == seq!['.', '0']);
            assert(seq!['.', '0'] =~= seq!['.'] + seq!['0']);
            lemma_count_char_add(seq!['.'], seq!['0'], '.');
            lemma_count_single('.', '.');
            lemma_count_single('0', '.');
        }
    } else {
        assert(ne == e1);
        lemma_count_char_absent(head, '.');
        assert(count_char(t, '.') == 0);
        assert(elided_suffix(t) == seq!['.', '0', '.', '0']);
        assert(seq!['.', '0', '.', '0'] =~= seq!['.'] + seq!['0'] + seq!['.'] + seq!['0']);
        lemma_count_char_add(seq!['.'] + seq!['0'] + seq!['.'], seq!['0'], '.');
        lemma_count_char_add(seq!['.'] + seq!['0'], seq!['.'], '.');
        lemma_count_char_add(seq!['.'], seq!['0'], '.');
        lemma_count_single('.', '.');
        lemma_count_single('0', '.');
    }
}

/// Normalizing a token that carries a marker splices the suffix before
/// it, and normalizing the result changes nothing.
#[verifier::rlimit(60)]
proof fn lemma_idem_marker(t: Seq<char>, m: Seq<char>)
    requires
        is_native_token(t),
        num_end(t) < t.len(),
        m == alpha_chars() || m == beta_chars() || m == rc_chars(),
        match_at(t, m, num_end(t)),
        digits_end(t, num_end(t) + m.len()) == t.len(),
    ensures
        to_semantic(t) == spliced(t, m),
        to_semantic(spliced(t, m)) == spliced(t, m),
{
    let n = t.len() as int;
    let ne = num_end(t);
    let L = m.len() as int;
    lemma_numpart_chars(t);
    lemma_digits_end_digits(t, ne + L);
    assert(m[0] == 'a' || m[0] == 'b' || m[0] == 'r');
    // the tail is the marker's letters and then digits; no dots or
    // dashes stand anywhere
    assert(forall|j: int| 0 <= j < L ==> #[trigger] t[ne + j] == m[j]);
    assert forall|k: int| ne <= k < n implies t[k] != '.' && t[k] != '-' by {
        if k < ne + L {
            assert(t[k] == m[k - ne]);
        }
    }
    assert(forall|k: int| 0 <= k < n ==> t[k] != '-');
    // the marker is active in the token
    assert(contains_sub(t, m)) by {
        assert(match_at(t, m, ne));
    }
    let suffix = elided_suffix(t);
    let s_len = suffix.len() as int;
    let guard = suffix + seq!['-'] + m;
    assert(guard[s_len] == '-');
    lemma_absent_char_no_match(t, guard, s_len);
    assert(marker_active(t, m));
    // the marker's first occurrence is exactly at the numeric part's end
    assert forall|j: int| 0 <= j < ne implies !match_at(t, m, j) by {
        if j + L <= n {
            assert(is_digit(t[j]) || t[j] == '.');
        }
    }
    assert(first_match(t, m, ne));
    lemma_first_match_unique(t, m, ne);
    let out = spliced(t, m);
    assert(out == t.take(ne) + suffix + seq!['-'] + t.skip(ne));
    assert(out.len() == n + s_len + 1);
    // normalizing the token takes exactly this marker's branch
    if m == beta_chars() {
        assert(forall|k: int| 0 <= k < n ==> t[k] != 'l');
        lemma_absent_char_no_match(t, alpha_chars(), 1);
    }
    if m == rc_chars() {
        assert(forall|k: int| 0 <= k < n ==> t[k] != 'a');
        assert(forall|k: int| 0 <= k < n ==> t[k] != 'b');
        lemma_absent_char_no_match(t, alpha_chars(), 0);
        lemma_absent_char_no_match(t, beta_chars(), 0);
    }
    assert(to_semantic(t) == out);
    // the spliced result carries exactly two dots
    lemma_token_suffix_dots(t);
    assert(t =~= t.take(ne) + t.skip(ne));
    lemma_count_char_add(t.take(ne), t.skip(ne), '.');
    assert(forall|j: int| 0 <= j < t.skip(ne).len() ==> t.skip(ne)[j] != '.');
    lemma_count_char_absent(t.skip(ne), '.');
    lemma_count_char_add(t.take(ne) + suffix + seq!['-'], t.skip(ne), '.');
    lemma_count_char_add(t.take(ne) + suffix, seq!['-'], '.');
    lemma_count_char_add(t.take(ne), suffix, '.');
    lemma_count_single('-', '.');
    assert(count_char(out, '.') == 2);
    assert(elided_suffix(out) == Seq::<char>::empty());
    // the marker, now preceded by the separator, stands in the result
    let g2 = seq!['-'] + m;
    assert(match_at(out, g2, ne + s_len)) by {
        assert(out[ne + s_len] == '-');
        assert(g2[0] == '-');
        assert forall|j: int| 0 <= j < L implies out[ne + s_len + 1 + j] == m[j] by {
            assert(out[ne + s_len + 1 + j] == t.skip(ne)[j]);
        }
        assert(forall|j: int| 0 <= j < L ==> g2[1 + j] == m[j]);
    }
    assert(contains_sub(out, g2)) by {
        assert(match_at(out, g2, ne + s_len));
    }
    // the suffix characters are dots and zeros
    assert(forall|j: int| 0 <= j < s_len ==> suffix[j] == '.' || suffix[j] == '0');
    // a second normalization finds every marker either absent or
    // already preceded by the separator
    if m == alpha_chars() {
        assert(elided_suffix(out) + seq!['-'] + alpha_chars() =~= g2);
        assert(!marker_active(out, alpha_chars()));
        assert forall|k: int| 0 <= k < out.len() implies out[k] != 'b' && out[k] != 'r' by {
            lemma_spliced_char(t, m, ne, k);
        }
        lemma_absent_char_no_match(out, beta_chars(), 0);
        lemma_absent_char_no_match(out, rc_chars(), 0);
    } else if m == beta_chars() {
        assert(elided_suffix(out) + seq!['-'] + beta_chars() =~= g2);
        assert(!marker_active(out, beta_chars()));
        assert forall|k: int| 0 <= k < out.len() implies out[k] != 'l' && out[k] != 'r' by {
            lemma_spliced_char(t, m, ne, k);
        }
        lemma_absent_char_no_match(out, alpha_chars(), 1);
        lemma_absent_char_no_match(out, rc_chars(), 0);
    } else {
        assert(elided_suffix(out) + seq!['-'] + rc_chars() =~= g2);
        assert(!marker_active(out, rc_chars()));
        assert forall|k: int| 0 <= k < out.len() implies out[k] != 'a' && out[k] != 'b' by {
            lemma_spliced_char(t, m, ne, k);
        }
        lemma_absent_char_no_match(out, alpha_chars(), 0);
        lemma_absent_char_no_match(out, beta_chars(), 0);
    }
    assert(to_semantic(out) == out + elided_suffix(out));
    assert(out + Seq::<char>::empty() =~= out);
}

/// Each character of a spliced result is a digit, a dot, the
/// separator, or one of the marker's letters.
proof fn lemma_spliced_char(t: Seq<char>, m: Seq<char>, ne: int, k: int)
    requires
        is_native_token(t),
        ne == num_end(t),
        ne < t.len(),
        match_at(t, m, ne),
        digits_end(t, ne + m.len()) == t.len(),
        first_match(t, m, ne),
        0 <= k < spliced(t, m).len(),
    ensures
        is_digit(spliced(t, m)[k]) || spliced(t, m)[k] == '.' || spliced(t, m)[k] == '-'
            || m.contains(spliced(t, m)[k]),
{
    lemma_numpart_chars(t);
    lemma_digits_end_digits(t, ne + m.len());
    lemma_first_match_unique(t, m, ne);
    let suffix = elided_suffix(t);
    let s_len = suffix.len() as int;
    let out = spliced(t, m);
    assert(out == t.take(ne) + suffix + seq!['-'] + t.skip(ne));
    assert(forall|j: int| 0 <= j < s_len ==> suffix[j] == '.' || suffix[j] == '0');
    if k < ne {
        assert(out[k] == t[k]);
    } else if k < ne + s_len {
        assert(out[k] == suffix[k - ne]);
    } else if k == ne + s_len {
        assert(out[k] == '-');
    } else {
        let j = k - (ne + s_len + 1);
        assert(out[k] == t.skip(ne)[j]);
        assert(out[k] == t[ne + j]);
        if j < m.len() {
            assert(t[ne + j] == m[j]);
            assert(m.contains(m[j]));
        }
    }
}

/// Normalization is idempotent: applying it to its own output changes
/// nothing, because the elided components it would insert are already
/// there.
pub proof fn lemma_to_semantic_idempotent(t: Seq<char>)
    requires
        is_native_token(t),
    ensures
        to_semantic(to_semantic(t)) == to_semantic(t),
{
    let n = t.len() as int;
    let ne = num_end(t);
    if ne == n {
        lemma_numpart_chars(t);
        lemma_no_markers_digits_dots(t);
        let suffix = elided_suffix(t);
        let out = t + suffix;
        assert(to_semantic(t) == out);
        lemma_token_suffix_dots(t);
        lemma_count_char_add(t, suffix, '.');
        assert(count_char(out, '.') == 2);
        assert(forall|j: int| 0 <= j < suffix.len() ==> suffix[j] == '.' || suffix[j] == '0');
        assert forall|k: int| 0 <= k < out.len() implies is_digit(out[k]) || out[k] == '.' by {
            if k < n {
                assert(out[k] == t[k]);
            } else {
                assert(out[k] == suffix[k - n]);
            }
        }
        lemma_no_markers_digits_dots(out);
        assert(elided_suffix(out) == Seq::<char>::empty());
        assert(to_semantic(out) == out + Seq::<char>::empty());
        assert(out + Seq::<char>::empty() =~= out);
    } else if match_at(t, alpha_chars(), ne) && digits_end(t, ne + 5) == n {
        lemma_idem_marker(t, alpha_chars());
    } else if match_at(t, beta_chars(), ne) && digits_end(t, ne + 4) == n {
        lemma_idem_marker(t, beta_chars());
    } else {
        assert(match_at(t, rc_chars(), ne) && digits_end(t, ne + 2) == n);
        lemma_idem_marker(t, rc_chars());
    }
}

} // verus!
