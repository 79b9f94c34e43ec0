//! Identifier scrubber: replaces every network-address-shaped substring with
//! a fixed placeholder, touching nothing else.
//!
//! A network identifier is a dotted quad: four groups of one to three digits
//! separated by dots. The scanner walks the text left to right; wherever a
//! quad starts it emits the placeholder and skips the quad, otherwise it
//! copies the character. The placeholder contains neither digits nor dots,
//! which is what makes the scrubber idempotent.
use vstd::prelude::*;

use crate::text::lemma_newline_count_concat;
use crate::text::lemma_newline_count_zero;
use crate::text::newline_count;

verus! {

/// The placeholder that replaces a network identifier.
pub open spec fn ip_placeholder() -> Seq<char> {
    "[censored-ip]"@
}

pub open spec fn is_digit(c: char) -> bool {
    ('0' as u32) <= (c as u32) && (c as u32) <= ('9' as u32)
}

/// A character that can be part of a network identifier.
pub open spec fn in_ip_charset(c: char) -> bool {
    is_digit(c) || c == '.'
}

/// How many consecutive digits the text starts with.
pub open spec fn digit_run(t: Seq<char>) -> int
    decreases t.len(),
{
    if t.len() == 0 || !is_digit(t[0]) {
        0
    } else {
        1 + digit_run(t.skip(1))
    }
}

/// The length of the digit group at the start of `t` when it is a valid
/// quad group followed by a dot, else `-1`.
pub open spec fn dot_group_len(t: Seq<char>) -> int {
    let n = digit_run(t);
    if 1 <= n <= 3 && n < t.len() && t[n] == '.' {
        n
    } else {
        -1
    }
}

/// The length of the network identifier at the start of `t`, or `-1` when
/// none starts there. The first three groups are forced (a group ends only
/// at its dot); the last takes at most three digits.
pub open spec fn ip_match_len(t: Seq<char>) -> int {
    let n1 = dot_group_len(t);
    if n1 > 0 {
        let t2 = t.skip(n1 + 1);
        let n2 = dot_group_len(t2);
        if n2 > 0 {
            let t3 = t2.skip(n2 + 1);
            let n3 = dot_group_len(t3);
            if n3 > 0 {
                let t4 = t3.skip(n3 + 1);
                let n4 = digit_run(t4);
                if n4 >= 1 {
                    let l4 = if n4 >= 3 {
                        3
                    } else {
                        n4
                    };
                    n1 + 1 + n2 + 1 + n3 + 1 + l4
                } else {
                    -1
                }
            } else {
                -1
            }
        } else {
            -1
        }
    } else {
        -1
    }
}

/// Whether a network identifier starts the text.
pub open spec fn ip_match_at(t: Seq<char>) -> bool {
    ip_match_len(t) > 0
}

/// The scrub of a text: placeholders for identifiers, all else copied.
pub open spec fn spec_scrub_ips(s: Seq<char>) -> Seq<char>
    decreases s.len(),
{
    if s.len() == 0 {
        Seq::empty()
    } else {
        let m = ip_match_len(s);
        if 0 < m <= s.len() {
            ip_placeholder() + spec_scrub_ips(s.skip(m))
        } else {
            seq![s[0]] + spec_scrub_ips(s.skip(1))
        }
    }
}

pub proof fn lemma_digit_run_le_len(t: Seq<char>)
    ensures
        0 <= digit_run(t) <= t.len(),
    decreases t.len(),
{
    if t.len() != 0 && is_digit(t[0]) {
        lemma_digit_run_le_len(t.skip(1));
    }
}

/// The characters inside the digit run are digits, and the run stops at a
/// non-digit (or the end).
pub proof fn lemma_digit_run_chars(t: Seq<char>)
    ensures
        forall|j: int| 0 <= j < digit_run(t) ==> is_digit(t[j]),
        digit_run(t) < t.len() ==> !is_digit(t[digit_run(t)]),
    decreases t.len(),
{
    lemma_digit_run_le_len(t);
    if t.len() != 0 && is_digit(t[0]) {
        lemma_digit_run_chars(t.skip(1));
        lemma_digit_run_le_len(t.skip(1));
        assert forall|j: int| 0 <= j < digit_run(t) implies is_digit(t[j]) by {
            if j > 0 {
                assert(t.skip(1)[j - 1] == t[j]);
            }
        }
        if digit_run(t) < t.len() {
            assert(t.skip(1)[digit_run(t) - 1] == t[digit_run(t)]);
        }
    }
}

/// A text whose first `n` characters are digits has a digit run of at
/// least `n`.
pub proof fn lemma_digit_run_ge(t: Seq<char>, n: int)
    requires
        0 <= n <= t.len(),
        forall|j: int| 0 <= j < n ==> is_digit(t[j]),
    ensures
        digit_run(t) >= n,
    decreases n,
{
    lemma_digit_run_le_len(t);
    if n > 0 {
        assert(is_digit(t[0]));
        assert forall|j: int| 0 <= j < n - 1 implies is_digit(t.skip(1)[j]) by {
            assert(t.skip(1)[j] == t[j + 1]);
            assert(is_digit(t[j + 1]));
        }
        lemma_digit_run_ge(t.skip(1), n - 1);
        assert(digit_run(t) == 1 + digit_run(t.skip(1)));
    }
}

/// The digit run is determined by the first `k` characters, as long as it
/// ends strictly inside them.
pub proof fn lemma_digit_run_agree(t: Seq<char>, t2: Seq<char>, k: int)
    requires
        0 <= k <= t.len(),
        k <= t2.len(),
        t.take(k) == t2.take(k),
        digit_run(t) < k,
    ensures
        digit_run(t2) == digit_run(t),
{
    let n = digit_run(t);
    lemma_digit_run_chars(t);
    lemma_digit_run_le_len(t);
    assert(forall|j: int| 0 <= j < k ==> t[j] == t2[j]) by {
        assert(forall|j: int| 0 <= j < k ==> t.take(k)[j] == t[j] && t2.take(k)[j] == t2[j]);
    }
    assert(forall|j: int| 0 <= j < n ==> is_digit(t2[j]));
    lemma_digit_run_ge(t2, n);
    lemma_digit_run_chars(t2);
    if digit_run(t2) > n {
        assert(is_digit(t2[n]));
        assert(!is_digit(t[n]));
    }
}

/// A match is at least seven characters long and fits in the text.
pub proof fn lemma_ip_match_len_bounds(t: Seq<char>)
    requires
        ip_match_at(t),
    ensures
        7 <= ip_match_len(t) <= t.len(),
{
    let n1 = dot_group_len(t);
    let t2 = t.skip(n1 + 1);
    let n2 = dot_group_len(t2);
    let t3 = t2.skip(n2 + 1);
    let n3 = dot_group_len(t3);
    let t4 = t3.skip(n3 + 1);
    lemma_digit_run_le_len(t4);
}

/// Every character inside a match is a digit or a dot.
pub proof fn lemma_ip_match_charset(t: Seq<char>)
    requires
        ip_match_at(t),
    ensures
        forall|j: int| 0 <= j < ip_match_len(t) ==> in_ip_charset(t[j]),
{
    let n1 = dot_group_len(t);
    let t2 = t.skip(n1 + 1);
    let n2 = dot_group_len(t2);
    let t3 = t2.skip(n2 + 1);
    let n3 = dot_group_len(t3);
    let t4 = t3.skip(n3 + 1);
    let n4 = digit_run(t4);
    let l4 = if n4 >= 3 {
        3int
    } else {
        n4
    };
    lemma_digit_run_chars(t);
    lemma_digit_run_chars(t2);
    lemma_digit_run_chars(t3);
    lemma_digit_run_chars(t4);
    lemma_digit_run_le_len(t4);
    let o2 = n1 + 1;
    let o3 = o2 + n2 + 1;
    let o4 = o3 + n3 + 1;
    assert(forall|j: int| 0 <= j < t2.len() ==> t2[j] == t[o2 + j]);
    assert(forall|j: int| 0 <= j < t3.len() ==> t3[j] == t2[n2 + 1 + j]);
    assert(forall|j: int| 0 <= j < t4.len() ==> t4[j] == t3[n3 + 1 + j]);
    assert forall|j: int| 0 <= j < ip_match_len(t) implies in_ip_charset(t[j]) by {
        if j < n1 {
            assert(is_digit(t[j]));
        } else if j == n1 {
            assert(t[j] == '.');
        } else if j < o2 + n2 {
            assert(t[j] == t2[j - o2]);
            assert(is_digit(t2[j - o2]));
        } else if j == o2 + n2 {
            assert(t[j] == t2[n2]);
            assert(t2[n2] == '.');
        } else if j < o3 + n3 {
            assert(t[j] == t2[j - o2]);
            assert(t2[j - o2] == t3[j - o3]);
            assert(is_digit(t3[j - o3]));
        } else if j == o3 + n3 {
            assert(t[j] == t2[j - o2]);
            assert(t2[j - o2] == t3[n3]);
            assert(t3[n3] == '.');
        } else {
            assert(j - o4 < l4 <= n4);
            assert(t[j] == t2[j - o2]);
            assert(t2[j - o2] == t3[j - o3]);
            assert(t3[j - o3] == t4[j - o4]);
            assert(is_digit(t4[j - o4]));
        }
    }
}

/// A match does not begin with anything but a digit.
pub proof fn lemma_no_match_without_digit(t: Seq<char>)
    requires
        t.len() == 0 || !is_digit(t[0]),
    ensures
        !ip_match_at(t),
{
    if t.len() != 0 {
        assert(digit_run(t) == 0);
    }
}

/// Whether some text starts a match is determined by its first
/// `ip_match_len` characters.
pub proof fn lemma_ip_match_agree(t: Seq<char>, t2: Seq<char>)
    requires
        ip_match_at(t),
        ip_match_len(t) <= t2.len(),
        t.take(ip_match_len(t)) == t2.take(ip_match_len(t)),
    ensures
        ip_match_at(t2),
{
    let m = ip_match_len(t);
    lemma_ip_match_len_bounds(t);
    let n1 = dot_group_len(t);
    let u2 = t.skip(n1 + 1);
    let n2 = dot_group_len(u2);
    let u3 = u2.skip(n2 + 1);
    let n3 = dot_group_len(u3);
    let u4 = u3.skip(n3 + 1);
    let n4 = digit_run(u4);
    let l4 = if n4 >= 3 {
        3int
    } else {
        n4
    };
    let o2 = n1 + 1;
    let o3 = o2 + n2 + 1;
    let o4 = o3 + n3 + 1;
    assert(forall|j: int| 0 <= j < m ==> t[j] == t2[j]) by {
        assert(forall|j: int| 0 <= j < m ==> t.take(m)[j] == t[j] && t2.take(m)[j] == t2[j]);
    }
    lemma_digit_run_agree(t, t2, m);
    assert(dot_group_len(t2) == n1);
    let v2 = t2.skip(o2);
    assert(u2.take(m - o2) == v2.take(m - o2)) by {
        assert(u2.take(m - o2) =~= v2.take(m - o2));
    }
    lemma_digit_run_agree(u2, v2, m - o2);
    assert(u2[n2] == t[o2 + n2] && v2[n2] == t2[o2 + n2]);
    assert(dot_group_len(v2) == n2);
    let v3 = t2.skip(o3);
    assert(u3 =~= t.skip(o3));
    assert(u3.take(m - o3) == v3.take(m - o3)) by {
        assert(u3.take(m - o3) =~= v3.take(m - o3));
    }
    lemma_digit_run_agree(u3, v3, m - o3);
    assert(u3[n3] == t[o3 + n3] && v3[n3] == t2[o3 + n3]);
    assert(dot_group_len(v3) == n3);
    let v4 = t2.skip(o4);
    assert(u4 =~= t.skip(o4));
    lemma_digit_run_chars(u4);
    lemma_digit_run_le_len(u4);
    assert(forall|j: int| 0 <= j < l4 ==> is_digit(u4[j]));
    assert(forall|j: int| 0 <= j < l4 ==> v4[j] == t2[o4 + j] && u4[j] == t[o4 + j]);
    assert(forall|j: int| 0 <= j < l4 ==> is_digit(v4[j]));
    lemma_digit_run_ge(v4, l4);
    assert(digit_run(v4) >= 1);
    assert(v2.skip(n2 + 1) =~= v3);
    assert(v3.skip(n3 + 1) =~= v4);
    assert(ip_match_len(t2) > 0);
}

/// The placeholder contains neither a digit nor a dot nor a newline.
pub proof fn lemma_placeholder_chars()
    ensures
        forall|j: int|
            0 <= j < ip_placeholder().len() ==> !in_ip_charset(#[trigger] ip_placeholder()[j])
                && ip_placeholder()[j] != '\n',
        ip_placeholder().len() == 13,
{
    reveal_strlit("[censored-ip]");
}

/// No network identifier starts anywhere in `t`.
pub open spec fn no_ip_match(t: Seq<char>) -> bool {
    forall|i: int| 0 <= i <= t.len() ==> !ip_match_at(#[trigger] t.skip(i))
}

/// As long as the scrubbed text keeps to identifier characters, it agrees
/// with the original: the scanner only ever replaces a match (whose first
/// character is a digit) with the placeholder (whose first character is
/// not an identifier character).
proof fn lemma_scrub_prefix_agreement(u: Seq<char>, k: int)
    requires
        0 <= k <= spec_scrub_ips(u).len(),
        forall|j: int| 0 <= j < k ==> in_ip_charset(#[trigger] spec_scrub_ips(u)[j]),
    ensures
        k <= u.len(),
        spec_scrub_ips(u).take(k) == u.take(k),
    decreases u.len(),
{
    if u.len() == 0 {
        assert(spec_scrub_ips(u).take(k) =~= u.take(k));
    } else if ip_match_at(u) {
        lemma_ip_match_len_bounds(u);
        lemma_placeholder_chars();
        let m = ip_match_len(u);
        assert(spec_scrub_ips(u) == ip_placeholder() + spec_scrub_ips(u.skip(m)));
        if k > 0 {
            assert(spec_scrub_ips(u)[0] == ip_placeholder()[0]);
            assert(in_ip_charset(spec_scrub_ips(u)[0]));
            assert(false);
        }
        assert(spec_scrub_ips(u).take(k) =~= u.take(k));
    } else {
        assert(ip_match_len(u) <= 0);
        assert(spec_scrub_ips(u) == seq![u[0]] + spec_scrub_ips(u.skip(1)));
        if k == 0 {
            assert(spec_scrub_ips(u).take(k) =~= u.take(k));
        } else {
            let r = spec_scrub_ips(u.skip(1));
            assert forall|j: int| 0 <= j < k - 1 implies in_ip_charset(#[trigger] r[j]) by {
                assert(spec_scrub_ips(u)[j + 1] == r[j]);
                assert(in_ip_charset(spec_scrub_ips(u)[j + 1]));
            }
            lemma_scrub_prefix_agreement(u.skip(1), k - 1);
            assert(spec_scrub_ips(u).take(k) =~= u.take(k)) by {
                assert(forall|j: int|
                    0 <= j < k - 1 ==> r.take(k - 1)[j] == r[j] && u.skip(1).take(k - 1)[j]
                        == u.skip(1)[j]);
            }
        }
    }
}

/// A match at the head of `[c] + scrub(u)` implies one at the head of
/// `[c] + u`: the match lies in identifier characters, which the scrubbed
/// text shares with the original.
proof fn lemma_match_through_scrub(c: char, u: Seq<char>)
    requires
        ip_match_at(seq![c] + spec_scrub_ips(u)),
    ensures
        ip_match_at(seq![c] + u),
{
    let t = seq![c] + spec_scrub_ips(u);
    let mt = ip_match_len(t);
    lemma_ip_match_len_bounds(t);
    lemma_ip_match_charset(t);
    assert forall|j: int| 0 <= j < mt - 1 implies in_ip_charset(
        #[trigger] spec_scrub_ips(u)[j],
    ) by {
        assert(t[j + 1] == spec_scrub_ips(u)[j]);
        assert(in_ip_charset(t[j + 1]));
    }
    lemma_scrub_prefix_agreement(u, mt - 1);
    let t2 = seq![c] + u;
    assert(t.take(mt) == t2.take(mt)) by {
        assert(forall|j: int|
            0 <= j < mt - 1 ==> spec_scrub_ips(u).take(mt - 1)[j] == spec_scrub_ips(u)[j]
                && u.take(mt - 1)[j] == u[j]);
        assert(t.take(mt) =~= t2.take(mt));
    }
    assert(mt <= t2.len());
    lemma_ip_match_agree(t, t2);
}

/// The scrubbed text contains no network identifier anywhere.
#[verifier::rlimit(60)]
pub proof fn lemma_scrub_ips_no_match(s: Seq<char>)
    ensures
        no_ip_match(spec_scrub_ips(s)),
    decreases s.len(),
{
    if s.len() == 0 {
        assert forall|i: int|
            0 <= i <= spec_scrub_ips(s).len() implies !ip_match_at(
            #[trigger] spec_scrub_ips(s).skip(i),
        ) by {
            lemma_no_match_without_digit(spec_scrub_ips(s).skip(i));
        }
    } else if ip_match_at(s) {
        lemma_ip_match_len_bounds(s);
        lemma_placeholder_chars();
        let m = ip_match_len(s);
        let p = ip_placeholder();
        let r = spec_scrub_ips(s.skip(m));
        lemma_scrub_ips_no_match(s.skip(m));
        assert(spec_scrub_ips(s) == p + r);
        assert forall|i: int| 0 <= i <= (p + r).len() implies !ip_match_at(
            #[trigger] (p + r).skip(i),
        ) by {
            if i < p.len() {
                assert((p + r).skip(i)[0] == p[i]);
                assert(!in_ip_charset(p[i]));
                lemma_no_match_without_digit((p + r).skip(i));
            } else {
                assert((p + r).skip(i) =~= r.skip(i - p.len()));
                assert(!ip_match_at(r.skip(i - p.len())));
            }
        }
    } else {
        assert(ip_match_len(s) <= 0);
        let r = spec_scrub_ips(s.skip(1));
        lemma_scrub_ips_no_match(s.skip(1));
        assert(spec_scrub_ips(s) == seq![s[0]] + r);
        assert forall|i: int| 0 <= i <= spec_scrub_ips(s).len() implies !ip_match_at(
            #[trigger] spec_scrub_ips(s).skip(i),
        ) by {
            if i == 0 {
                assert(spec_scrub_ips(s).skip(0) =~= seq![s[0]] + r);
                if ip_match_at(seq![s[0]] + r) {
                    lemma_match_through_scrub(s[0], s.skip(1));
                    assert(seq![s[0]] + s.skip(1) =~= s);
                    assert(false);
                }
            } else {
                assert(spec_scrub_ips(s).skip(i) =~= r.skip(i - 1));
                assert(!ip_match_at(r.skip(i - 1)));
            }
        }
    }
}

/// A text with no identifier anywhere scrubs to itself.
pub proof fn lemma_scrub_ips_identity(t: Seq<char>)
    requires
        no_ip_match(t),
    ensures
        spec_scrub_ips(t) == t,
    decreases t.len(),
{
    if t.len() == 0 {
        assert(spec_scrub_ips(t) =~= t);
    } else {
        assert(t.skip(0) =~= t);
        assert(!ip_match_at(t.skip(0)));
        assert(ip_match_len(t) <= 0);
        assert forall|i: int| 0 <= i <= t.skip(1).len() implies !ip_match_at(
            #[trigger] t.skip(1).skip(i),
        ) by {
            assert(t.skip(1).skip(i) =~= t.skip(1 + i));
            assert(!ip_match_at(t.skip(1 + i)));
        }
        lemma_scrub_ips_identity(t.skip(1));
        assert(spec_scrub_ips(t) =~= t);
    }
}

/// The identifier scrubber is idempotent: scrubbing twice equals scrubbing
/// once.
pub proof fn lemma_scrub_ips_idempotent(s: Seq<char>)
    ensures
        spec_scrub_ips(spec_scrub_ips(s)) == spec_scrub_ips(s),
{
    lemma_scrub_ips_no_match(s);
    lemma_scrub_ips_identity(spec_scrub_ips(s));
}

/// An empty text holds no identifier.
proof fn lemma_no_match_of_empty(t: Seq<char>)
    requires
        t.len() == 0,
    ensures
        no_ip_match(t),
{
    assert forall|i: int| 0 <= i <= t.len() implies !ip_match_at(#[trigger] t.skip(i)) by {
        lemma_no_match_without_digit(t.skip(i));
    }
}

/// No identifier starts in a prefix of a text in which none starts.
pub proof fn lemma_no_match_take(u: Seq<char>, k: int)
    requires
        no_ip_match(u),
        0 <= k <= u.len(),
    ensures
        no_ip_match(u.take(k)),
{
    let w = u.take(k);
    assert forall|i: int| 0 <= i <= w.len() implies !ip_match_at(#[trigger] w.skip(i)) by {
        if ip_match_at(w.skip(i)) {
            lemma_ip_match_len_bounds(w.skip(i));
            let m = ip_match_len(w.skip(i));
            assert(w.skip(i).take(m) == u.skip(i).take(m)) by {
                assert(w.skip(i).take(m) =~= u.skip(i).take(m));
            }
            assert(m <= u.skip(i).len());
            lemma_ip_match_agree(w.skip(i), u.skip(i));
            assert(!ip_match_at(u.skip(i)));
            assert(false);
        }
    }
}

/// Nor in a suffix.
pub proof fn lemma_no_match_skip(u: Seq<char>, k: int)
    requires
        no_ip_match(u),
        0 <= k <= u.len(),
    ensures
        no_ip_match(u.skip(k)),
{
    assert forall|i: int| 0 <= i <= u.skip(k).len() implies !ip_match_at(
        #[trigger] u.skip(k).skip(i),
    ) by {
        assert(u.skip(k).skip(i) =~= u.skip(k + i));
        assert(!ip_match_at(u.skip(k + i)));
    }
}

/// The first split piece is a prefix of the text.
proof fn lemma_split_first_prefix(u: Seq<char>)
    ensures
        crate::text::spec_split_lines(u)[0].len() <= u.len(),
        crate::text::spec_split_lines(u)[0] == u.take(
            crate::text::spec_split_lines(u)[0].len() as int,
        ),
    decreases u.len(),
{
    let p0 = crate::text::spec_split_lines(u)[0];
    if u.len() == 0 {
        assert(p0 =~= u.take(0));
    } else if u[0] == '\n' {
        assert(p0 =~= u.take(0));
    } else {
        lemma_split_first_prefix(u.skip(1));
        let q0 = crate::text::spec_split_lines(u.skip(1))[0];
        assert(p0 == seq![u[0]] + q0);
        assert(q0 == u.skip(1).take(q0.len() as int));
        assert(p0 =~= u.take(1 + q0.len() as int));
    }
}

/// Every split piece of an identifier-free text is identifier-free.
proof fn lemma_split_pieces_no_match(u: Seq<char>)
    requires
        no_ip_match(u),
    ensures
        forall|i: int|
            0 <= i < crate::text::spec_split_lines(u).len() ==> no_ip_match(
                #[trigger] crate::text::spec_split_lines(u)[i],
            ),
    decreases u.len(),
{
    let p = crate::text::spec_split_lines(u);
    if u.len() == 0 {
        assert forall|i: int| 0 <= i < p.len() implies no_ip_match(#[trigger] p[i]) by {
            lemma_no_match_of_empty(p[i]);
        }
    } else {
        lemma_no_match_skip(u, 1);
        lemma_split_pieces_no_match(u.skip(1));
        let rest = crate::text::spec_split_lines(u.skip(1));
        if u[0] == '\n' {
            assert forall|i: int| 0 <= i < p.len() implies no_ip_match(#[trigger] p[i]) by {
                if i == 0 {
                    lemma_no_match_of_empty(p[0]);
                } else {
                    assert(p[i] == rest[i - 1]);
                }
            }
        } else {
            crate::text::lemma_split_lines_nonempty(u.skip(1));
            lemma_split_first_prefix(u);
            lemma_no_match_take(u, p[0].len() as int);
            assert forall|i: int| 0 <= i < p.len() implies no_ip_match(#[trigger] p[i]) by {
                if i > 0 {
                    assert(p[i] == rest.skip(1)[i - 1]);
                    assert(rest.skip(1)[i - 1] == rest[i]);
                }
            }
        }
    }
}

/// Every reader line of an identifier-free text is identifier-free.
pub proof fn lemma_lines_no_match(u: Seq<char>)
    requires
        no_ip_match(u),
    ensures
        forall|i: int|
            0 <= i < crate::text::spec_lines(u).len() ==> no_ip_match(
                #[trigger] crate::text::spec_lines(u)[i],
            ),
{
    lemma_split_pieces_no_match(u);
    crate::text::lemma_split_lines_nonempty(u);
    let p = crate::text::spec_split_lines(u);
    assert forall|i: int| 0 <= i < crate::text::spec_lines(u).len() implies no_ip_match(
        #[trigger] crate::text::spec_lines(u)[i],
    ) by {
        assert(crate::text::spec_lines(u)[i] == crate::text::strip_cr(p[i]));
        assert(no_ip_match(p[i]));
        if p[i].len() > 0 && p[i].last() == '\r' {
            assert(p[i].drop_last() =~= p[i].take(p[i].len() - 1));
            lemma_no_match_take(p[i], p[i].len() - 1);
        }
    }
}

/// A newline-separated join of identifier-free, newline-free lines is
/// identifier-free: a match never holds a newline, so it would have to sit
/// inside a single line.
pub proof fn lemma_join_no_match(ls: Seq<Seq<char>>)
    requires
        crate::text::all_newline_free(ls),
        forall|i: int| 0 <= i < ls.len() ==> no_ip_match(#[trigger] ls[i]),
    ensures
        no_ip_match(crate::text::spec_join_lines(ls)),
    decreases ls.len(),
{
    let j = crate::text::spec_join_lines(ls);
    if ls.len() == 0 {
        lemma_no_match_of_empty(j);
    } else if ls.len() == 1 {
        assert(j == ls[0]);
    } else {
        assert(crate::text::all_newline_free(ls.skip(1))) by {
            assert(forall|i: int| 0 <= i < ls.skip(1).len() ==> ls.skip(1)[i] == ls[i + 1]);
        }
        assert forall|i: int| 0 <= i < ls.skip(1).len() implies no_ip_match(
            #[trigger] ls.skip(1)[i],
        ) by {
            assert(ls.skip(1)[i] == ls[i + 1]);
        }
        lemma_join_no_match(ls.skip(1));
        let l0 = ls[0];
        let rest = crate::text::spec_join_lines(ls.skip(1));
        assert(j == l0 + seq!['\n'] + rest);
        assert forall|i: int| 0 <= i <= j.len() implies !ip_match_at(#[trigger] j.skip(i)) by {
            if i < l0.len() {
                if ip_match_at(j.skip(i)) {
                    lemma_ip_match_len_bounds(j.skip(i));
                    lemma_ip_match_charset(j.skip(i));
                    let m = ip_match_len(j.skip(i));
                    if i + m > l0.len() {
                        let pos = l0.len() - i;
                        assert(0 <= pos < m);
                        assert(j.skip(i)[pos] == j[l0.len() as int]);
                        assert(j[l0.len() as int] == '\n');
                        assert(in_ip_charset(j.skip(i)[pos]));
                        assert(false);
                    }
                    assert(j.skip(i).take(m) == l0.skip(i).take(m)) by {
                        assert(j.skip(i).take(m) =~= l0.skip(i).take(m));
                    }
                    assert(m <= l0.skip(i).len());
                    lemma_ip_match_agree(j.skip(i), l0.skip(i));
                    assert(no_ip_match(l0));
                    assert(!ip_match_at(l0.skip(i)));
                    assert(false);
                }
            } else if i == l0.len() {
                assert(j.skip(i)[0] == '\n');
                lemma_no_match_without_digit(j.skip(i));
            } else {
                assert(j.skip(i) =~= rest.skip(i - l0.len() - 1));
                assert(!ip_match_at(rest.skip(i - l0.len() - 1)));
            }
        }
    }
}

/// The scrubber never empties a text.
proof fn lemma_scrub_ips_nonempty(s: Seq<char>)
    requires
        s.len() > 0,
    ensures
        spec_scrub_ips(s).len() > 0,
    decreases s.len(),
{
    if ip_match_at(s) {
        lemma_ip_match_len_bounds(s);
        lemma_placeholder_chars();
    }
}

/// The scrubber keeps the text's final character's newline-ness: a final
/// newline is copied, and the placeholder does not end in one.
proof fn lemma_scrub_ips_last_newline(s: Seq<char>)
    requires
        s.len() > 0,
    ensures
        (spec_scrub_ips(s).last() == '\n') <==> (s.last() == '\n'),
    decreases s.len(),
{
    lemma_scrub_ips_nonempty(s);
    if ip_match_at(s) {
        lemma_ip_match_len_bounds(s);
        lemma_ip_match_charset(s);
        lemma_placeholder_chars();
        let m = ip_match_len(s);
        let p = ip_placeholder();
        let r = spec_scrub_ips(s.skip(m));
        if m == s.len() {
            assert(in_ip_charset(s[m - 1]));
            assert(s.last() != '\n');
            assert(s.skip(m).len() == 0);
            assert(r.len() == 0);
            assert(spec_scrub_ips(s) =~= p);
            assert(p.last() != '\n') by {
                assert(!in_ip_charset(p[p.len() - 1]) && p[p.len() - 1] != '\n');
            }
        } else {
            lemma_scrub_ips_nonempty(s.skip(m));
            lemma_scrub_ips_last_newline(s.skip(m));
            assert((p + r).last() == r.last());
            assert(s.skip(m).last() == s.last());
        }
    } else {
        assert(ip_match_len(s) <= 0);
        let r = spec_scrub_ips(s.skip(1));
        if s.len() == 1 {
            assert(s.skip(1).len() == 0);
            assert(r.len() == 0);
            assert((seq![s[0]] + r).last() == s[0]);
            assert(s[0] == s.last());
        } else {
            lemma_scrub_ips_nonempty(s.skip(1));
            lemma_scrub_ips_last_newline(s.skip(1));
            assert((seq![s[0]] + r).last() == r.last());
            assert(s.skip(1).last() == s.last());
        }
    }
}

/// The identifier scrubber preserves the line count: placeholders and
/// identifier characters alike are newline-free, and the text stays empty,
/// newline-terminated or neither exactly as it was.
pub proof fn lemma_scrub_ips_line_count(s: Seq<char>)
    ensures
        crate::text::line_count(spec_scrub_ips(s)) == crate::text::line_count(s),
{
    lemma_scrub_ips_newline_count(s);
    crate::text::lemma_line_count_formula(s);
    crate::text::lemma_line_count_formula(spec_scrub_ips(s));
    if s.len() > 0 {
        lemma_scrub_ips_nonempty(s);
        lemma_scrub_ips_last_newline(s);
    }
}

proof fn lemma_scrub_ips_newline_count(s: Seq<char>)
    ensures
        newline_count(spec_scrub_ips(s)) == newline_count(s),
    decreases s.len(),
{
    if s.len() == 0 {
    } else if ip_match_at(s) {
        lemma_ip_match_len_bounds(s);
        lemma_ip_match_charset(s);
        lemma_placeholder_chars();
        let m = ip_match_len(s);
        let p = ip_placeholder();
        let r = spec_scrub_ips(s.skip(m));
        lemma_scrub_ips_newline_count(s.skip(m));
        lemma_newline_count_concat(p, r);
        lemma_newline_count_zero(p);
        assert(s =~= s.take(m) + s.skip(m));
        lemma_newline_count_concat(s.take(m), s.skip(m));
        assert forall|j: int| 0 <= j < s.take(m).len() implies s.take(m)[j] != '\n' by {
            assert(s.take(m)[j] == s[j]);
            assert(in_ip_charset(s[j]));
        }
        lemma_newline_count_zero(s.take(m));
        assert(newline_count(s.take(m) + s.skip(m)) == newline_count(s));
    } else {
        assert(ip_match_len(s) <= 0);
        let r = spec_scrub_ips(s.skip(1));
        lemma_scrub_ips_newline_count(s.skip(1));
        lemma_newline_count_concat(seq![s[0]], r);
        let single = seq![s[0]];
        assert(single.len() == 1);
        assert(single.skip(1).len() == 0);
        assert(newline_count(single.skip(1)) == 0);
        assert(single[0] == s[0]);
        assert(newline_count(single) == (if s[0] == '\n' {
            1int
        } else {
            0int
        }) + newline_count(single.skip(1)));
    }
}

pub(crate) fn is_digit_exec(c: char) -> (b: bool)
    ensures
        b == is_digit(c),
{
    (c as u32) >= ('0' as u32) && (c as u32) <= ('9' as u32)
}

/// The number of consecutive digits at position `i`.
pub(crate) fn digit_run_at(s: &Vec<char>, i: usize) -> (n: usize)
    requires
        i <= s@.len(),
    ensures
        n as int == digit_run(s@.skip(i as int)),
        i + n <= s@.len(),
{
    let mut j: usize = i;
    while j < s.len() && is_digit_exec(s[j])
        invariant
            i <= j <= s@.len(),
            digit_run(s@.skip(i as int)) == (j - i) + digit_run(s@.skip(j as int)),
        decreases s@.len() - j,
    {
        proof {
            assert(s@.skip(j as int)[0] == s@[j as int]);
            assert(s@.skip(j as int).skip(1) =~= s@.skip(j as int + 1));
            assert(digit_run(s@.skip(j as int)) == 1 + digit_run(s@.skip(j as int + 1)));
        }
        j = j + 1;
    }
    proof {
        if j < s@.len() {
            assert(s@.skip(j as int)[0] == s@[j as int]);
            assert(digit_run(s@.skip(j as int)) == 0);
        } else {
            assert(s@.skip(j as int).len() == 0);
            assert(digit_run(s@.skip(j as int)) == 0);
        }
        lemma_digit_run_le_len(s@.skip(i as int));
    }
    j - i
}

/// The length of the identifier match at position `i`, or zero when none
/// starts there.
fn ip_match_len_at(s: &Vec<char>, i: usize) -> (m: usize)
    requires
        i <= s@.len(),
    ensures
        ip_match_at(s@.skip(i as int)) ==> m as int == ip_match_len(s@.skip(i as int)),
        !ip_match_at(s@.skip(i as int)) ==> m == 0,
        i + m <= s@.len(),
{
    let ghost t = s@.skip(i as int);
    let total = s.len();
    proof {
        assert(s@.len() == total);
    }
    let n1 = digit_run_at(s, i);
    if n1 < 1 || n1 > 3 || i + n1 >= s.len() || s[i + n1] != '.' {
        proof {
            if i + n1 < s@.len() {
                assert(t[n1 as int] == s@[i + n1]);
            }
            assert(dot_group_len(t) <= 0);
        }
        return 0;
    }
    let o2 = i + n1 + 1;
    let ghost t2 = t.skip(n1 as int + 1);
    proof {
        assert(t[n1 as int] == s@[i + n1]);
        assert(dot_group_len(t) == n1 as int);
        assert(t2 =~= s@.skip(o2 as int));
    }
    let n2 = digit_run_at(s, o2);
    if n2 < 1 || n2 > 3 || o2 + n2 >= s.len() || s[o2 + n2] != '.' {
        proof {
            if o2 + n2 < s@.len() {
                assert(t2[n2 as int] == s@[o2 + n2]);
            }
            assert(dot_group_len(t2) <= 0);
        }
        return 0;
    }
    let o3 = o2 + n2 + 1;
    let ghost t3 = t2.skip(n2 as int + 1);
    proof {
        assert(t2[n2 as int] == s@[o2 + n2]);
        assert(dot_group_len(t2) == n2 as int);
        assert(t3 =~= s@.skip(o3 as int));
    }
    let n3 = digit_run_at(s, o3);
    if n3 < 1 || n3 > 3 || o3 + n3 >= s.len() || s[o3 + n3] != '.' {
        proof {
            if o3 + n3 < s@.len() {
                assert(t3[n3 as int] == s@[o3 + n3]);
            }
            assert(dot_group_len(t3) <= 0);
        }
        return 0;
    }
    let o4 = o3 + n3 + 1;
    let ghost t4 = t3.skip(n3 as int + 1);
    proof {
        assert(t3[n3 as int] == s@[o3 + n3]);
        assert(dot_group_len(t3) == n3 as int);
        assert(t4 =~= s@.skip(o4 as int));
    }
    let n4 = digit_run_at(s, o4);
    if n4 < 1 {
        proof {
            assert(digit_run(t4) == 0);
        }
        return 0;
    }
    let l4: usize = if n4 >= 3 {
        3
    } else {
        n4
    };
    proof {
        assert(digit_run(t4) == n4 as int);
        assert(ip_match_len(t) == (o4 + l4 - i) as int);
    }
    (o4 + l4) - i
}

/// Appends the placeholder to the output.
fn push_placeholder(out: &mut Vec<char>)
    ensures
        final(out)@ == old(out)@ + ip_placeholder(),
{
    let p = crate::text::str_to_chars("[censored-ip]");
    let mut k: usize = 0;
    while k < p.len()
        invariant
            k <= p@.len(),
            p@ == ip_placeholder(),
            out@ == old(out)@ + p@.take(k as int),
        decreases p@.len() - k,
    {
        out.push(p[k]);
        assert(out@ =~= old(out)@ + p@.take(k as int + 1));
        k = k + 1;
    }
    assert(out@ =~= old(out)@ + p@);
}

/// Every network-address-shaped substring replaced by the placeholder,
/// everything else copied unchanged.
pub fn filter_ips(contents: &str) -> (r: String)
    ensures
        r@ == spec_scrub_ips(contents@),
{
    let s = crate::text::str_to_chars(contents);
    let mut out: Vec<char> = Vec::new();
    let mut i: usize = 0;
    proof {
        assert(s@.skip(0) =~= s@);
        assert(out@ + spec_scrub_ips(s@) =~= spec_scrub_ips(s@));
    }
    while i < s.len()
        invariant
            i <= s@.len(),
            spec_scrub_ips(s@) == out@ + spec_scrub_ips(s@.skip(i as int)),
        decreases s@.len() - i,
    {
        let ghost t = s@.skip(i as int);
        let m = ip_match_len_at(&s, i);
        if m > 0 {
            let ghost old_out = out@;
            push_placeholder(&mut out);
            proof {
                lemma_ip_match_len_bounds(t);
                assert(t.skip(m as int) =~= s@.skip(i as int + m as int));
                assert(spec_scrub_ips(t) == ip_placeholder() + spec_scrub_ips(
                    s@.skip(i as int + m as int),
                ));
                assert(old_out + spec_scrub_ips(t) =~= out@ + spec_scrub_ips(
                    s@.skip(i as int + m as int),
                ));
            }
            i = i + m;
        } else {
            let ghost old_out = out@;
            out.push(s[i]);
            proof {
                assert(t[0] == s@[i as int]);
                assert(t.skip(1) =~= s@.skip(i as int + 1));
                assert(!ip_match_at(t));
                assert(ip_match_len(t) <= 0);
                assert(spec_scrub_ips(t) == seq![t[0]] + spec_scrub_ips(s@.skip(i as int + 1)));
                assert(old_out + spec_scrub_ips(t) =~= out@ + spec_scrub_ips(
                    s@.skip(i as int + 1),
                ));
            }
            i = i + 1;
        }
    }
    proof {
        assert(s@.skip(i as int).len() == 0);
        assert(spec_scrub_ips(s@.skip(i as int)) =~= Seq::<char>::empty());
        assert(out@ =~= spec_scrub_ips(s@));
    }
    crate::text::chars_to_string(&out)
}

} // verus!
