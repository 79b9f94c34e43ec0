//! Line-oriented text model shared by every sanitization strategy.
//!
//! The raw split (`spec_split_lines`) cuts on `'\n'` and keeps every piece,
//! so joining the pieces restores the text exactly. The reader's view
//! (`spec_lines`) is the one log consumers use: a line ends at `'\n'` or
//! `"\r\n"`, and a final newline terminates the last line rather than
//! opening an empty one. All strategies transform the reader's lines one by
//! one and join them back, which is what makes the line-count preservation
//! guarantees possible.
use vstd::prelude::*;

verus! {

/// The lines of a text: split on `'\n'`, keeping every piece.
/// A text always has at least one line; `"a\nb"` has two, `"a\n"` has two
/// (the second empty), and `""` has one empty line.
pub open spec fn spec_split_lines(s: Seq<char>) -> Seq<Seq<char>>
    decreases s.len(),
{
    if s.len() == 0 {
        seq![Seq::<char>::empty()]
    } else if s[0] == '\n' {
        seq![Seq::<char>::empty()] + spec_split_lines(s.skip(1))
    } else {
        let rest = spec_split_lines(s.skip(1));
        seq![seq![s[0]] + rest[0]] + rest.skip(1)
    }
}

/// Joining lines with `'\n'` is the inverse of splitting.
pub open spec fn spec_join_lines(lines: Seq<Seq<char>>) -> Seq<char>
    decreases lines.len(),
{
    if lines.len() == 0 {
        Seq::empty()
    } else if lines.len() == 1 {
        lines[0]
    } else {
        lines[0] + seq!['\n'] + spec_join_lines(lines.skip(1))
    }
}

/// A line's one optional carriage return before its ending, removed:
/// line endings are `\n` or `\r\n`.
pub open spec fn strip_cr(l: Seq<char>) -> Seq<char> {
    if l.len() > 0 && l.last() == '\r' {
        l.drop_last()
    } else {
        l
    }
}

/// A line that still ends in a carriage return after one strip.
pub open spec fn ends_with_cr(l: Seq<char>) -> bool {
    l.len() > 0 && l.last() == '\r'
}

/// The lines of a text as a log reader counts them: split on `'\n'`, one
/// trailing `'\r'` stripped from each line, and the empty piece after a
/// final newline (or of an empty text) not a line of its own.
pub open spec fn spec_lines(s: Seq<char>) -> Seq<Seq<char>> {
    let p = spec_split_lines(s);
    let q = if p.last().len() == 0 {
        p.drop_last()
    } else {
        p
    };
    q.map_values(|l: Seq<char>| strip_cr(l))
}

/// How many lines a text has.
pub open spec fn line_count(s: Seq<char>) -> nat {
    spec_lines(s).len()
}

/// The text does not end in a blank line, so a line-per-line transform of
/// it keeps its line count even after joining.
pub open spec fn no_trailing_blank_line(s: Seq<char>) -> bool {
    spec_lines(s).len() > 0 ==> spec_lines(s).last().len() > 0
}

/// No line of the text keeps a carriage return at its end once split.
pub open spec fn cr_free_line_ends(s: Seq<char>) -> bool {
    forall|i: int| 0 <= i < spec_lines(s).len() ==> !ends_with_cr(#[trigger] spec_lines(s)[i])
}

/// How many newlines the text holds.
pub open spec fn newline_count(s: Seq<char>) -> int
    decreases s.len(),
{
    if s.len() == 0 {
        0
    } else {
        (if s[0] == '\n' {
            1int
        } else {
            0int
        }) + newline_count(s.skip(1))
    }
}

/// A line produced by splitting never contains a newline.
pub open spec fn newline_free(l: Seq<char>) -> bool {
    forall|i: int| 0 <= i < l.len() ==> l[i] != '\n'
}

pub open spec fn all_newline_free(lines: Seq<Seq<char>>) -> bool {
    forall|i: int| 0 <= i < lines.len() ==> newline_free(#[trigger] lines[i])
}

pub proof fn lemma_split_lines_nonempty(s: Seq<char>)
    ensures
        spec_split_lines(s).len() >= 1,
    decreases s.len(),
{
    if s.len() != 0 && s[0] != '\n' {
        lemma_split_lines_nonempty(s.skip(1));
    }
}

pub proof fn lemma_split_lines_newline_free(s: Seq<char>)
    ensures
        all_newline_free(spec_split_lines(s)),
    decreases s.len(),
{
    if s.len() == 0 {
    } else if s[0] == '\n' {
        lemma_split_lines_newline_free(s.skip(1));
        assert forall|i: int| 0 <= i < spec_split_lines(s).len() implies newline_free(
            #[trigger] spec_split_lines(s)[i],
        ) by {
            if i > 0 {
                assert(spec_split_lines(s)[i] == spec_split_lines(s.skip(1))[i - 1]);
            }
        }
    } else {
        lemma_split_lines_newline_free(s.skip(1));
        lemma_split_lines_nonempty(s.skip(1));
        let rest = spec_split_lines(s.skip(1));
        assert forall|i: int| 0 <= i < spec_split_lines(s).len() implies newline_free(
            #[trigger] spec_split_lines(s)[i],
        ) by {
            if i == 0 {
                assert(newline_free(rest[0]));
                assert(spec_split_lines(s)[0] == seq![s[0]] + rest[0]);
            } else {
                assert(spec_split_lines(s)[i] == rest.skip(1)[i - 1]);
                assert(rest.skip(1)[i - 1] == rest[i]);
            }
        }
    }
}

/// Splitting a join of newline-free lines gives the lines back.
pub proof fn lemma_split_join(lines: Seq<Seq<char>>)
    requires
        lines.len() >= 1,
        all_newline_free(lines),
    ensures
        spec_split_lines(spec_join_lines(lines)) == lines,
    decreases lines.len(), lines[0].len(),
{
    if lines.len() == 1 {
        lemma_split_of_newline_free(lines[0]);
        assert(spec_split_lines(spec_join_lines(lines)) =~~= lines);
    } else if lines[0].len() == 0 {
        let sub = lines.skip(1);
        assert(all_newline_free(sub)) by {
            assert(forall|i: int| 0 <= i < sub.len() ==> sub[i] == lines[i + 1]);
        }
        lemma_split_join(sub);
        let joined = spec_join_lines(lines);
        assert(joined == lines[0] + seq!['\n'] + spec_join_lines(sub));
        assert(joined[0] == '\n');
        assert(joined.skip(1) =~= spec_join_lines(sub));
        assert(spec_split_lines(joined) == seq![Seq::<char>::empty()] + spec_split_lines(
            joined.skip(1),
        ));
        assert(spec_split_lines(joined.skip(1)) == sub);
        assert(spec_split_lines(joined) =~~= lines);
    } else {
        let shorter = seq![lines[0].skip(1)] + lines.skip(1);
        assert(all_newline_free(shorter)) by {
            assert(newline_free(lines[0]));
            assert(forall|i: int| 0 <= i < lines[0].skip(1).len() ==> lines[0].skip(1)[i] == lines[0][i + 1]);
            assert(newline_free(lines[0].skip(1)));
            assert(forall|i: int| 1 <= i < shorter.len() ==> shorter[i] == lines[i]);
        }
        assert(shorter[0].len() < lines[0].len());
        lemma_split_join(shorter);
        let joined = spec_join_lines(lines);
        assert(joined == lines[0] + seq!['\n'] + spec_join_lines(lines.skip(1)));
        assert(joined.len() > 0);
        assert(joined[0] == lines[0][0]);
        assert(joined[0] != '\n');
        assert(joined.skip(1) =~= spec_join_lines(shorter)) by {
            assert(spec_join_lines(shorter) == shorter[0] + seq!['\n'] + spec_join_lines(
                shorter.skip(1),
            ));
            assert(shorter.skip(1) =~= lines.skip(1));
        }
        let rest = spec_split_lines(joined.skip(1));
        assert(rest == shorter);
        assert(spec_split_lines(joined) == seq![seq![joined[0]] + rest[0]] + rest.skip(1));
        assert(seq![joined[0]] + rest[0] =~= lines[0]);
        assert(rest.skip(1) =~~= lines.skip(1));
        assert(spec_split_lines(joined) =~~= lines);
    }
}

/// A newline-free text splits into itself as the single line.
pub proof fn lemma_split_of_newline_free(l: Seq<char>)
    requires
        newline_free(l),
    ensures
        spec_split_lines(l) == seq![l],
    decreases l.len(),
{
    if l.len() == 0 {
        assert(spec_split_lines(l) =~~= seq![l]);
    } else {
        assert(forall|i: int| 0 <= i < l.skip(1).len() ==> l.skip(1)[i] == l[i + 1]);
        lemma_split_of_newline_free(l.skip(1));
        assert(seq![l[0]] + l.skip(1) =~= l);
        assert(spec_split_lines(l) =~~= seq![l]);
    }
}

/// The characters of a string, as a vector.
pub fn str_to_chars(s: &str) -> (v: Vec<char>)
    ensures
        v@ == s@,
{
    let n = s.unicode_len();
    let mut v: Vec<char> = Vec::new();
    let mut i: usize = 0;
    while i < n
        invariant
            n == s@.len(),
            i <= n,
            v@ == s@.take(i as int),
        decreases n - i,
    {
        let c = s.get_char(i);
        v.push(c);
        assert(v@ =~= s@.take(i + 1));
        i = i + 1;
    }
    assert(v@ =~= s@);
    v
}

/// Relies on `String::push`: appends the one character to the end.
#[verifier::external_body]
pub fn push_char(s: &mut String, c: char)
    ensures
        final(s)@ == old(s)@ + seq![c],
{
    s.push(c);
}

/// A string holding exactly the given characters.
pub fn chars_to_string(v: &Vec<char>) -> (s: String)
    ensures
        s@ == v@,
{
    let mut s = String::new();
    let mut i: usize = 0;
    while i < v.len()
        invariant
            i <= v@.len(),
            s@ == v@.take(i as int),
        decreases v@.len() - i,
    {
        push_char(&mut s, v[i]);
        assert(s@ =~= v@.take(i + 1));
        i = i + 1;
    }
    assert(s@ =~= v@);
    s
}

/// The lines of the text, split on `'\n'` with every piece kept.
pub fn split_lines(s: &Vec<char>) -> (lines: Vec<Vec<char>>)
    ensures
        lines.deep_view() == spec_split_lines(s@),
{
    let mut done: Vec<Vec<char>> = Vec::new();
    let mut cur: Vec<char> = Vec::new();
    let mut i: usize = 0;
    proof {
        lemma_split_lines_nonempty(s@);
        assert(s@.skip(0) =~= s@);
        assert(done.deep_view() =~~= Seq::<Seq<char>>::empty());
        assert(done.deep_view() + prepend_first(cur@, spec_split_lines(s@)) =~~= spec_split_lines(
            s@,
        ));
    }
    while i < s.len()
        invariant
            i <= s@.len(),
            spec_split_lines(s@) == done.deep_view() + prepend_first(cur@, spec_split_lines(
                s@.skip(i as int),
            )),
        decreases s@.len() - i,
    {
        proof {
            lemma_split_lines_nonempty(s@.skip(i as int + 1));
            assert(s@.skip(i as int).skip(1) =~= s@.skip(i as int + 1));
        }
        let ghost old_done = done.deep_view();
        let ghost old_cur = cur@;
        if s[i] == '\n' {
            proof {
                let tail = spec_split_lines(s@.skip(i as int));
                let tail2 = spec_split_lines(s@.skip(i as int + 1));
                assert(tail == seq![Seq::<char>::empty()] + tail2);
                assert(prepend_first(old_cur, tail) =~~= seq![old_cur] + tail2);
                assert(old_done + prepend_first(old_cur, tail) =~~= (old_done.push(old_cur))
                    + prepend_first(Seq::<char>::empty(), tail2));
            }
            done.push(cur);
            cur = Vec::new();
            proof {
                assert(done.deep_view() =~~= old_done.push(old_cur));
            }
        } else {
            proof {
                let tail = spec_split_lines(s@.skip(i as int));
                let tail2 = spec_split_lines(s@.skip(i as int + 1));
                assert(tail == seq![seq![s@[i as int]] + tail2[0]] + tail2.skip(1));
                assert(prepend_first(old_cur, tail) =~~= prepend_first(
                    old_cur.push(s@[i as int]),
                    tail2,
                ));
            }
            cur.push(s[i]);
        }
        i = i + 1;
    }
    proof {
        assert(s@.skip(i as int) =~= Seq::<char>::empty());
        assert(spec_split_lines(Seq::<char>::empty()) == seq![Seq::<char>::empty()]);
        assert(prepend_first(cur@, seq![Seq::<char>::empty()]) =~~= seq![cur@]);
    }
    let ghost old_done = done.deep_view();
    let ghost old_cur = cur@;
    done.push(cur);
    proof {
        assert(done.deep_view() =~~= old_done.push(old_cur));
        assert(old_done + seq![old_cur] =~~= old_done.push(old_cur));
    }
    done
}

/// The split of a text, with a partial line prefixed onto its first piece.
pub open spec fn prepend_first(prefix: Seq<char>, pieces: Seq<Seq<char>>) -> Seq<Seq<char>> {
    seq![prefix + pieces[0]] + pieces.skip(1)
}

/// The lines joined with `'\n'`.
pub fn join_lines(lines: &Vec<Vec<char>>) -> (s: Vec<char>)
    requires
        lines@.len() >= 1,
    ensures
        s@ == spec_join_lines(lines.deep_view()),
{
    let mut out: Vec<char> = Vec::new();
    let mut i: usize = 0;
    proof {
        assert(spec_join_partial(lines.deep_view(), 0) == Seq::<char>::empty());
    }
    while i < lines.len()
        invariant
            i <= lines@.len(),
            lines@.len() >= 1,
            out@ == spec_join_partial(lines.deep_view(), i as int),
        decreases lines@.len() - i,
    {
        let ghost dv = lines.deep_view();
        if i > 0 {
            out.push('\n');
        }
        let mut j: usize = 0;
        let line = &lines[i];
        let ghost mid = out@;
        while j < line.len()
            invariant
                j <= line@.len(),
                line@ == dv[i as int],
                out@ == mid + line@.take(j as int),
            decreases line@.len() - j,
        {
            out.push(line[j]);
            assert(out@ =~= mid + line@.take(j + 1));
            j = j + 1;
        }
        proof {
            assert(line@.take(line@.len() as int) =~= line@);
            lemma_join_partial_step(dv, i as int);
            if i > 0 {
                assert(out@ =~= spec_join_partial(dv, i as int) + seq!['\n'] + dv[i as int]);
            } else {
                assert(out@ =~= spec_join_partial(dv, 0) + dv[0]);
            }
        }
        i = i + 1;
    }
    proof {
        lemma_join_partial_full(lines.deep_view());
    }
    out
}

/// The join of the first `i` lines (with no trailing separator).
pub open spec fn spec_join_partial(lines: Seq<Seq<char>>, i: int) -> Seq<char>
    decreases i,
{
    if i <= 0 {
        Seq::empty()
    } else if i == 1 {
        lines[0]
    } else {
        spec_join_partial(lines, i - 1) + seq!['\n'] + lines[i - 1]
    }
}

proof fn lemma_join_partial_step(lines: Seq<Seq<char>>, i: int)
    requires
        0 <= i,
    ensures
        i == 0 ==> spec_join_partial(lines, 1) == spec_join_partial(lines, 0) + lines[0],
        i > 0 ==> spec_join_partial(lines, i + 1) == spec_join_partial(lines, i) + seq!['\n']
            + lines[i],
{
    if i == 0 {
        assert(spec_join_partial(lines, 1) =~= Seq::<char>::empty() + lines[0]);
    }
}

proof fn lemma_join_partial_full(lines: Seq<Seq<char>>)
    requires
        lines.len() >= 1,
    ensures
        spec_join_partial(lines, lines.len() as int) == spec_join_lines(lines),
    decreases lines.len(),
{
    if lines.len() == 1 {
    } else {
        let front = lines.take(lines.len() - 1);
        lemma_join_partial_full(front);
        lemma_join_partial_take(lines, lines.len() - 1);
        lemma_join_lines_snoc(lines);
    }
}

proof fn lemma_join_partial_take(lines: Seq<Seq<char>>, k: int)
    requires
        0 <= k <= lines.len(),
    ensures
        spec_join_partial(lines.take(k), k) == spec_join_partial(lines, k),
    decreases k,
{
    if k > 0 {
        lemma_join_partial_take_inner(lines, k, k);
    }
}

proof fn lemma_join_partial_take_inner(lines: Seq<Seq<char>>, k: int, i: int)
    requires
        0 <= i <= k <= lines.len(),
    ensures
        spec_join_partial(lines.take(k), i) == spec_join_partial(lines, i),
    decreases i,
{
    if i > 1 {
        lemma_join_partial_take_inner(lines, k, i - 1);
        assert(lines.take(k)[i - 1] == lines[i - 1]);
    } else if i == 1 {
        assert(lines.take(k)[0] == lines[0]);
    }
}

/// Joining `front + [last]` appends a separator and the last line.
proof fn lemma_join_lines_snoc(lines: Seq<Seq<char>>)
    requires
        lines.len() >= 2,
    ensures
        spec_join_lines(lines) == spec_join_lines(lines.take(lines.len() - 1)) + seq!['\n']
            + lines[lines.len() - 1],
    decreases lines.len(),
{
    if lines.len() == 2 {
        assert(lines.take(1) =~= seq![lines[0]]);
        assert(spec_join_lines(lines.take(1)) == lines[0]);
        assert(lines.skip(1) =~= seq![lines[1]]);
        assert(spec_join_lines(lines.skip(1)) == lines[1]);
    } else {
        let sub = lines.skip(1);
        lemma_join_lines_snoc(sub);
        assert(sub.take(sub.len() - 1) =~= lines.take(lines.len() - 1).skip(1));
        assert(sub[sub.len() - 1] == lines[lines.len() - 1]);
        let front = lines.take(lines.len() - 1);
        assert(front.len() >= 2);
        assert(front[0] == lines[0]);
        assert(spec_join_lines(front) == front[0] + seq!['\n'] + spec_join_lines(front.skip(1)));
        assert(spec_join_lines(lines) == lines[0] + seq!['\n'] + spec_join_lines(sub));
        assert(spec_join_lines(lines) =~= spec_join_lines(front) + seq!['\n'] + lines[lines.len()
            - 1]);
    }
}

/// Whether `s` has `sub` as a contiguous substring starting at `i`.
pub open spec fn has_sub_at(s: Seq<char>, sub: Seq<char>, i: int) -> bool {
    0 <= i && i + sub.len() <= s.len() && s.subrange(i, i + sub.len()) == sub
}

/// Whether `s` contains `sub` as a contiguous substring.
pub open spec fn contains_sub(s: Seq<char>, sub: Seq<char>) -> bool {
    exists|i: int| has_sub_at(s, sub, i)
}

/// Whether the first `end` characters of the line spell exactly `s`.
pub fn prefix_eq_str(v: &Vec<char>, end: usize, s: &str) -> (b: bool)
    requires
        end <= v@.len(),
    ensures
        b == (v@.take(end as int) == s@),
{
    let n = s.unicode_len();
    if n != end {
        proof {
            assert(v@.take(end as int).len() == end);
        }
        return false;
    }
    let mut j: usize = 0;
    while j < end
        invariant
            j <= end <= v@.len(),
            end == s@.len(),
            forall|k: int| 0 <= k < j ==> v@[k] == s@[k],
        decreases end - j,
    {
        if v[j] != s.get_char(j) {
            proof {
                assert(v@.take(end as int)[j as int] == v@[j as int]);
            }
            return false;
        }
        j = j + 1;
    }
    proof {
        assert(v@.take(end as int) =~= s@);
    }
    true
}

/// Appends the characters of a literal or string onto the buffer.
pub fn append_str(out: &mut Vec<char>, s: &str)
    ensures
        final(out)@ == old(out)@ + s@,
{
    let v = str_to_chars(s);
    let mut k: usize = 0;
    while k < v.len()
        invariant
            k <= v@.len(),
            v@ == s@,
            out@ == old(out)@ + v@.take(k as int),
        decreases v@.len() - k,
    {
        out.push(v[k]);
        assert(out@ =~= old(out)@ + v@.take(k as int + 1));
        k = k + 1;
    }
    assert(out@ =~= old(out)@ + s@);
}

/// The same, from a character buffer.
pub fn append_chars(out: &mut Vec<char>, v: &Vec<char>)
    ensures
        final(out)@ == old(out)@ + v@,
{
    let mut k: usize = 0;
    while k < v.len()
        invariant
            k <= v@.len(),
            out@ == old(out)@ + v@.take(k as int),
        decreases v@.len() - k,
    {
        out.push(v[k]);
        assert(out@ =~= old(out)@ + v@.take(k as int + 1));
        k = k + 1;
    }
    assert(out@ =~= old(out)@ + v@);
}

pub proof fn lemma_newline_count_concat(a: Seq<char>, b: Seq<char>)
    ensures
        newline_count(a + b) == newline_count(a) + newline_count(b),
    decreases a.len(),
{
    if a.len() == 0 {
        assert(a + b =~= b);
    } else {
        assert((a + b).skip(1) =~= a.skip(1) + b);
        assert((a + b)[0] == a[0]);
        lemma_newline_count_concat(a.skip(1), b);
    }
}

/// A text free of newlines has a newline count of zero.
pub proof fn lemma_newline_count_zero(s: Seq<char>)
    requires
        forall|j: int| 0 <= j < s.len() ==> s[j] != '\n',
    ensures
        newline_count(s) == 0,
    decreases s.len(),
{
    if s.len() != 0 {
        assert(forall|j: int| 0 <= j < s.skip(1).len() ==> s.skip(1)[j] == s[j + 1]);
        lemma_newline_count_zero(s.skip(1));
    }
}

/// The split has one more piece than the text has newlines.
pub proof fn lemma_split_len_newlines(s: Seq<char>)
    ensures
        spec_split_lines(s).len() == newline_count(s) + 1,
    decreases s.len(),
{
    if s.len() != 0 {
        lemma_split_len_newlines(s.skip(1));
        if s[0] != '\n' {
            lemma_split_lines_nonempty(s.skip(1));
        }
    }
}

/// The final piece of the split is empty exactly when the text is empty
/// or ends with a newline.
pub proof fn lemma_split_last_empty(s: Seq<char>)
    ensures
        (spec_split_lines(s).last().len() == 0) <==> (s.len() == 0 || s.last() == '\n'),
    decreases s.len(),
{
    if s.len() == 0 {
    } else {
        lemma_split_lines_nonempty(s.skip(1));
        lemma_split_last_empty(s.skip(1));
        if s[0] == '\n' {
            assert(spec_split_lines(s).last() == spec_split_lines(s.skip(1)).last());
            if s.len() > 1 {
                assert(s.skip(1).last() == s.last());
            }
        } else {
            let rest = spec_split_lines(s.skip(1));
            if rest.len() == 1 {
                assert(spec_split_lines(s).last() == seq![s[0]] + rest[0]);
                assert(spec_split_lines(s).last().len() >= 1);
                if s.len() > 1 {
                    assert(s.skip(1).last() == s.last());
                    if s.last() == '\n' {
                        lemma_split_len_newlines(s.skip(1));
                        assert(newline_count(s.skip(1)) == 0);
                        lemma_newline_count_last(s.skip(1));
                        assert(false);
                    }
                }
            } else {
                assert(spec_split_lines(s).last() == rest.skip(1).last());
                assert(rest.skip(1).last() == rest.last());
                assert(s.skip(1).len() > 0);
                assert(s.skip(1).last() == s.last());
            }
        }
    }
}

/// A text ending in a newline holds at least one newline.
proof fn lemma_newline_count_last(s: Seq<char>)
    requires
        s.len() > 0,
        s.last() == '\n',
    ensures
        newline_count(s) >= 1,
    decreases s.len(),
{
    if s.len() > 1 {
        assert(s.skip(1).last() == s.last());
        lemma_newline_count_last(s.skip(1));
    } else {
        assert(s[0] == s.last());
        assert(s.skip(1).len() == 0);
        assert(newline_count(s.skip(1)) == 0);
    }
}

/// The line count from the raw text: none for the empty text, the newline
/// count for a newline-terminated text, one more otherwise.
pub proof fn lemma_line_count_formula(s: Seq<char>)
    ensures
        line_count(s) as int == (if s.len() == 0 {
            0int
        } else if s.last() == '\n' {
            newline_count(s)
        } else {
            newline_count(s) + 1
        }),
{
    lemma_split_len_newlines(s);
    lemma_split_last_empty(s);
    lemma_split_lines_nonempty(s);
}

/// The reader's lines carry no newline.
pub proof fn lemma_spec_lines_newline_free(s: Seq<char>)
    ensures
        all_newline_free(spec_lines(s)),
{
    lemma_split_lines_newline_free(s);
    lemma_split_lines_nonempty(s);
    let p = spec_split_lines(s);
    assert forall|i: int| 0 <= i < spec_lines(s).len() implies newline_free(
        #[trigger] spec_lines(s)[i],
    ) by {
        assert(spec_lines(s)[i] == strip_cr(p[i]));
        assert(newline_free(p[i]));
        assert(forall|j: int| 0 <= j < strip_cr(p[i]).len() ==> strip_cr(p[i])[j] == p[i][j]);
    }
}

/// Joining lines whose last is nonempty gives a text with exactly those
/// many lines back.
pub proof fn lemma_lines_of_join_count(ls: Seq<Seq<char>>)
    requires
        ls.len() >= 1,
        all_newline_free(ls),
        ls.last().len() > 0,
    ensures
        spec_lines(spec_join_lines(ls)).len() == ls.len(),
{
    lemma_split_join(ls);
    let j = spec_join_lines(ls);
    assert(spec_split_lines(j).last() == ls.last());
}

/// And when no joined line ends in a carriage return, the text reads back
/// as exactly those lines.
pub proof fn lemma_lines_of_join_exact(ls: Seq<Seq<char>>)
    requires
        ls.len() >= 1,
        all_newline_free(ls),
        ls.last().len() > 0,
        forall|i: int| 0 <= i < ls.len() ==> !ends_with_cr(#[trigger] ls[i]),
    ensures
        spec_lines(spec_join_lines(ls)) == ls,
{
    lemma_split_join(ls);
    let j = spec_join_lines(ls);
    assert(spec_split_lines(j).last() == ls.last());
    assert(spec_lines(j) =~~= ls) by {
        assert(forall|i: int|
            0 <= i < ls.len() ==> #[trigger] spec_lines(j)[i] == strip_cr(ls[i]));
    }
}

/// The lines of a text, as `spec_lines` reads them.
pub fn to_lines(s: &Vec<char>) -> (lines: Vec<Vec<char>>)
    ensures
        lines.deep_view() == spec_lines(s@),
{
    let mut p = split_lines(s);
    proof {
        lemma_split_lines_nonempty(s@);
    }
    let ghost pv = spec_split_lines(s@);
    let ghost qv = if pv.last().len() == 0 {
        pv.drop_last()
    } else {
        pv
    };
    let last_idx = p.len() - 1;
    if p[last_idx].len() == 0 {
        let _ = p.pop();
        proof {
            assert(p.deep_view() =~~= pv.drop_last());
        }
    } else {
        proof {
            assert(pv.last().len() > 0);
        }
    }
    proof {
        assert(p.deep_view() == qv);
    }
    let mut out: Vec<Vec<char>> = Vec::new();
    let mut i: usize = 0;
    proof {
        assert(out.deep_view() =~~= qv.map_values(|l: Seq<char>| strip_cr(l)).take(0));
    }
    while i < p.len()
        invariant
            i <= p@.len(),
            p.deep_view() == qv,
            p@.len() == qv.len(),
            out.deep_view() =~~= qv.map_values(|l: Seq<char>| strip_cr(l)).take(i as int),
        decreases p@.len() - i,
    {
        let l = &p[i];
        proof {
            assert(l@ == qv[i as int]);
        }
        let keep: usize = if l.len() > 0 && l[l.len() - 1] == '\r' {
            l.len() - 1
        } else {
            l.len()
        };
        let mut stripped: Vec<char> = Vec::new();
        let mut j: usize = 0;
        while j < keep
            invariant
                j <= keep <= l@.len(),
                stripped@ == l@.take(j as int),
            decreases keep - j,
        {
            stripped.push(l[j]);
            assert(stripped@ =~= l@.take(j as int + 1));
            j = j + 1;
        }
        proof {
            assert(stripped@ =~= strip_cr(qv[i as int]));
        }
        let ghost old_out = out.deep_view();
        out.push(stripped);
        proof {
            assert(out.deep_view() =~~= old_out.push(strip_cr(qv[i as int])));
            assert(out.deep_view() =~~= qv.map_values(|l2: Seq<char>| strip_cr(l2)).take(
                i as int + 1,
            ));
        }
        i = i + 1;
    }
    proof {
        let mv = qv.map_values(|l: Seq<char>| strip_cr(l));
        assert(mv.take(mv.len() as int) =~~= mv);
        assert(out.deep_view() =~~= spec_lines(s@));
    }
    out
}

} // verus!
