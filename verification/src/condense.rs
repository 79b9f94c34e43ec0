//! Runtime-log condenser: groups fault entries by a normalized signature.
//!
//! A fault entry is a header line (one that does not start with whitespace)
//! together with the indented continuation lines under it. The signature of
//! an entry is its header with every digit run collapsed to `#`, which
//! folds away timestamps, instance ids and run-varying offsets while
//! keeping distinct faults separate. Groups are reported in the order the
//! first member of each appeared, never by frequency, so that repeated
//! requests over the same input render byte-identical output.
use vstd::prelude::*;

use crate::ip_scrub::digit_run;
use crate::ip_scrub::is_digit;
use crate::ip_scrub::lemma_digit_run_le_len;
use crate::runtimes::spec_scrub;
use crate::ip_scrub::spec_scrub_ips;
use crate::text::chars_to_string;
use crate::text::join_lines;
use crate::text::spec_join_lines;
use crate::text::spec_lines;
use crate::text::str_to_chars;
use crate::text::to_lines;

verus! {

/// A line that continues the entry above it.
pub open spec fn is_continuation(l: Seq<char>) -> bool {
    l.len() > 0 && (l[0] == ' ' || l[0] == '\t')
}

/// A line that opens a new fault entry.
pub open spec fn is_entry_header(l: Seq<char>) -> bool {
    l.len() > 0 && !is_continuation(l)
}

/// The number of continuation lines at the front.
pub open spec fn cont_len(lines: Seq<Seq<char>>) -> int
    decreases lines.len(),
{
    if lines.len() == 0 || !is_continuation(lines[0]) {
        0
    } else {
        1 + cont_len(lines.skip(1))
    }
}

pub proof fn lemma_cont_len_bounds(lines: Seq<Seq<char>>)
    ensures
        0 <= cont_len(lines) <= lines.len(),
    decreases lines.len(),
{
    if lines.len() != 0 && is_continuation(lines[0]) {
        lemma_cont_len_bounds(lines.skip(1));
    }
}

/// One parsed fault entry: its header line and its continuation lines.
pub struct EntrySpec {
    pub header: Seq<char>,
    pub body: Seq<Seq<char>>,
}

/// The fault entries of a line sequence. Blank lines and continuation
/// lines with no header above them belong to no entry.
pub open spec fn parse_entries(lines: Seq<Seq<char>>) -> Seq<EntrySpec>
    decreases lines.len(),
    via parse_entries_decreases
{
    if lines.len() == 0 {
        Seq::empty()
    } else if is_entry_header(lines[0]) {
        let k = cont_len(lines.skip(1));
        seq![EntrySpec { header: lines[0], body: lines.skip(1).take(k) }] + parse_entries(
            lines.skip(1 + k),
        )
    } else {
        parse_entries(lines.skip(1))
    }
}

#[via_fn]
proof fn parse_entries_decreases(lines: Seq<Seq<char>>) {
    if lines.len() != 0 && is_entry_header(lines[0]) {
        lemma_cont_len_bounds(lines.skip(1));
    }
}

/// The header with every digit run collapsed to one `#`.
pub open spec fn collapse_digits(s: Seq<char>) -> Seq<char>
    decreases s.len(),
    via collapse_digits_decreases
{
    if s.len() == 0 {
        Seq::empty()
    } else if is_digit(s[0]) {
        seq!['#'] + collapse_digits(s.skip(digit_run(s)))
    } else {
        seq![s[0]] + collapse_digits(s.skip(1))
    }
}

#[via_fn]
proof fn collapse_digits_decreases(s: Seq<char>) {
    if s.len() != 0 && is_digit(s[0]) {
        lemma_digit_run_le_len(s);
        lemma_digit_run_le_len(s.skip(1));
        assert(digit_run(s) == 1 + digit_run(s.skip(1)));
        assert(digit_run(s) >= 1);
    }
}

/// The grouping key of an entry.
pub open spec fn signature_of(e: EntrySpec) -> Seq<char> {
    collapse_digits(e.header)
}

/// One condensed fault group: its signature, how many entries shared it,
/// and the header and continuation lines of the first of them.
pub struct GroupSpec {
    pub signature: Seq<char>,
    pub count: int,
    pub header: Seq<char>,
    pub body: Seq<Seq<char>>,
}

/// Folds the entries into groups: an entry joins the group carrying its
/// signature, or opens a new group at the end.
pub open spec fn group_entries(entries: Seq<EntrySpec>) -> Seq<GroupSpec>
    decreases entries.len(),
{
    if entries.len() == 0 {
        Seq::empty()
    } else {
        let prev = group_entries(entries.drop_last());
        let e = entries.last();
        let sig = signature_of(e);
        if exists|i: int| 0 <= i < prev.len() && prev[i].signature == sig {
            let i = choose|i: int| 0 <= i < prev.len() && prev[i].signature == sig;
            prev.update(
                i,
                GroupSpec {
                    signature: prev[i].signature,
                    count: prev[i].count + 1,
                    header: prev[i].header,
                    body: prev[i].body,
                },
            )
        } else {
            prev.push(GroupSpec { signature: sig, count: 1, header: e.header, body: e.body })
        }
    }
}

/// No two groups share a signature.
pub open spec fn unique_signatures(gs: Seq<GroupSpec>) -> bool {
    forall|i: int, j: int|
        0 <= i < j < gs.len() ==> (#[trigger] gs[i]).signature != (#[trigger] gs[j]).signature
}

pub proof fn lemma_groups_unique(entries: Seq<EntrySpec>)
    ensures
        unique_signatures(group_entries(entries)),
    decreases entries.len(),
{
    if entries.len() != 0 {
        lemma_groups_unique(entries.drop_last());
        let prev = group_entries(entries.drop_last());
        let sig = signature_of(entries.last());
        if exists|i: int| 0 <= i < prev.len() && prev[i].signature == sig {
            let i = choose|i: int| 0 <= i < prev.len() && prev[i].signature == sig;
            let cur = group_entries(entries);
            assert forall|a: int, b: int|
                0 <= a < b < cur.len() implies (#[trigger] cur[a]).signature != (
            #[trigger] cur[b]).signature by {
                assert(cur[a].signature == prev[a].signature);
                assert(cur[b].signature == prev[b].signature);
            }
        }
    }
}

/// The total of the group counts.
pub open spec fn sum_counts(gs: Seq<GroupSpec>) -> int
    decreases gs.len(),
{
    if gs.len() == 0 {
        0
    } else {
        sum_counts(gs.drop_last()) + gs.last().count
    }
}

proof fn lemma_sum_counts_update(gs: Seq<GroupSpec>, i: int, g: GroupSpec)
    requires
        0 <= i < gs.len(),
        g.count == gs[i].count + 1,
    ensures
        sum_counts(gs.update(i, g)) == sum_counts(gs) + 1,
    decreases gs.len(),
{
    if i == gs.len() - 1 {
        assert(gs.update(i, g).drop_last() =~= gs.drop_last());
        assert(gs.update(i, g).last() == g);
    } else {
        assert(gs.update(i, g).drop_last() =~= gs.drop_last().update(i, g));
        lemma_sum_counts_update(gs.drop_last(), i, g);
        assert(gs.update(i, g).last() == gs.last());
    }
}

/// Every count is positive and no larger than the number of entries.
pub proof fn lemma_group_counts_bounded(entries: Seq<EntrySpec>)
    ensures
        forall|k: int|
            0 <= k < group_entries(entries).len() ==> 1 <= (
            #[trigger] group_entries(entries)[k]).count <= entries.len(),
    decreases entries.len(),
{
    if entries.len() != 0 {
        lemma_group_counts_bounded(entries.drop_last());
        let prev = group_entries(entries.drop_last());
        let sig = signature_of(entries.last());
        let cur = group_entries(entries);
        if exists|i: int| 0 <= i < prev.len() && prev[i].signature == sig {
            let i = choose|i: int| 0 <= i < prev.len() && prev[i].signature == sig;
            assert forall|k: int| 0 <= k < cur.len() implies 1 <= (#[trigger] cur[k]).count
                <= entries.len() by {
                if k != i {
                    assert(cur[k] == prev[k]);
                }
            }
        } else {
            assert forall|k: int| 0 <= k < cur.len() implies 1 <= (#[trigger] cur[k]).count
                <= entries.len() by {
                if k < prev.len() {
                    assert(cur[k] == prev[k]);
                }
            }
        }
    }
}

/// Conservation: the group counts add up to the number of entries parsed.
pub proof fn lemma_condense_conservation(entries: Seq<EntrySpec>)
    ensures
        sum_counts(group_entries(entries)) == entries.len(),
    decreases entries.len(),
{
    if entries.len() != 0 {
        lemma_condense_conservation(entries.drop_last());
        let prev = group_entries(entries.drop_last());
        let sig = signature_of(entries.last());
        if exists|i: int| 0 <= i < prev.len() && prev[i].signature == sig {
            let i = choose|i: int| 0 <= i < prev.len() && prev[i].signature == sig;
            lemma_sum_counts_update(
                prev,
                i,
                GroupSpec {
                    signature: prev[i].signature,
                    count: prev[i].count + 1,
                    header: prev[i].header,
                    body: prev[i].body,
                },
            );
        } else {
            assert(group_entries(entries).drop_last() =~= prev);
        }
    }
}

/// The distinct values of a sequence, each at the position of its first
/// occurrence.
pub open spec fn first_occurrence_dedup(sigs: Seq<Seq<char>>) -> Seq<Seq<char>>
    decreases sigs.len(),
{
    if sigs.len() == 0 {
        Seq::empty()
    } else {
        let prev = first_occurrence_dedup(sigs.drop_last());
        if prev.contains(sigs.last()) {
            prev
        } else {
            prev.push(sigs.last())
        }
    }
}

/// Group order is first-occurrence order: the group signatures are exactly
/// the entry signatures deduplicated in order of first appearance.
pub proof fn lemma_condense_first_occurrence_order(entries: Seq<EntrySpec>)
    ensures
        group_entries(entries).map_values(|g: GroupSpec| g.signature) == first_occurrence_dedup(
            entries.map_values(|e: EntrySpec| signature_of(e)),
        ),
    decreases entries.len(),
{
    let gsigs = group_entries(entries).map_values(|g: GroupSpec| g.signature);
    let esigs = entries.map_values(|e: EntrySpec| signature_of(e));
    if entries.len() == 0 {
        assert(gsigs =~~= first_occurrence_dedup(esigs));
    } else {
        lemma_condense_first_occurrence_order(entries.drop_last());
        assert(entries.drop_last().map_values(|e: EntrySpec| signature_of(e)) =~~= esigs.drop_last());
        let prev = group_entries(entries.drop_last());
        let prev_sigs = prev.map_values(|g: GroupSpec| g.signature);
        let sig = signature_of(entries.last());
        assert(esigs.last() == sig);
        if exists|i: int| 0 <= i < prev.len() && prev[i].signature == sig {
            let i = choose|i: int| 0 <= i < prev.len() && prev[i].signature == sig;
            assert(prev_sigs[i] == sig);
            assert(prev_sigs.contains(sig));
            assert(gsigs =~~= prev_sigs);
        } else {
            if prev_sigs.contains(sig) {
                let i = choose|i: int| 0 <= i < prev_sigs.len() && prev_sigs[i] == sig;
                assert(prev[i].signature == sig);
                assert(false);
            }
            assert(gsigs =~~= prev_sigs.push(sig));
        }
    }
}

/// The decimal digit character for one digit value.
pub open spec fn dec_digit(d: int) -> char {
    if d == 0 {
        '0'
    } else if d == 1 {
        '1'
    } else if d == 2 {
        '2'
    } else if d == 3 {
        '3'
    } else if d == 4 {
        '4'
    } else if d == 5 {
        '5'
    } else if d == 6 {
        '6'
    } else if d == 7 {
        '7'
    } else if d == 8 {
        '8'
    } else {
        '9'
    }
}

/// The decimal rendering of a nonnegative number.
pub open spec fn dec_str(n: int) -> Seq<char>
    decreases n,
    via dec_str_decreases
{
    if n < 10 {
        seq![dec_digit(n)]
    } else {
        dec_str(n / 10) + seq![dec_digit(n % 10)]
    }
}

#[via_fn]
proof fn dec_str_decreases(n: int) {
    if n >= 10 {
        assert(0 <= n / 10 < n) by (nonlinear_arith)
            requires
                n >= 10,
        ;
    }
}

fn dec_digit_exec(d: u64) -> (c: char)
    requires
        d < 10,
    ensures
        c == dec_digit(d as int),
{
    if d == 0 {
        '0'
    } else if d == 1 {
        '1'
    } else if d == 2 {
        '2'
    } else if d == 3 {
        '3'
    } else if d == 4 {
        '4'
    } else if d == 5 {
        '5'
    } else if d == 6 {
        '6'
    } else if d == 7 {
        '7'
    } else if d == 8 {
        '8'
    } else {
        '9'
    }
}

/// The decimal digits of a number, most significant first.
fn u64_to_dec(n: u64) -> (r: Vec<char>)
    ensures
        r@ == dec_str(n as int),
{
    let mut digits: Vec<char> = Vec::new();
    let mut rem: u64 = n;
    let c0 = dec_digit_exec(rem % 10);
    digits.insert(0, c0);
    proof {
        assert(digits@ =~= seq![dec_digit(n as int % 10)]);
        if n < 10 {
            assert(n as int % 10 == n as int);
        }
    }
    rem = rem / 10;
    while rem > 0
        invariant
            rem > 0 ==> dec_str(n as int) == dec_str(rem as int) + digits@,
            rem == 0 ==> dec_str(n as int) == digits@,
        decreases rem,
    {
        let ghost old_digits = digits@;
        let ghost old_rem = rem as int;
        let c = dec_digit_exec(rem % 10);
        digits.insert(0, c);
        proof {
            assert(digits@ =~= seq![dec_digit(old_rem % 10)] + old_digits);
        }
        rem = rem / 10;
        proof {
            if rem > 0 {
                assert(old_rem >= 10) by (nonlinear_arith)
                    requires
                        old_rem / 10 > 0,
                ;
                assert(dec_str(old_rem) == dec_str(old_rem / 10) + seq![dec_digit(old_rem % 10)]);
                assert(dec_str(n as int) =~= dec_str(rem as int) + digits@);
            } else {
                assert(old_rem < 10) by (nonlinear_arith)
                    requires
                        old_rem / 10 == 0,
                        old_rem >= 0,
                ;
                assert(old_rem % 10 == old_rem);
                assert(dec_str(old_rem) == seq![dec_digit(old_rem)]);
                assert(dec_str(n as int) =~= digits@);
            }
        }
    }
    digits
}

/// The signature characters of a header line.
fn collapse_digits_exec(v: &Vec<char>) -> (r: Vec<char>)
    ensures
        r@ == collapse_digits(v@),
{
    let mut out: Vec<char> = Vec::new();
    let mut i: usize = 0;
    proof {
        assert(v@.skip(0) =~= v@);
        assert(out@ + collapse_digits(v@) =~= collapse_digits(v@));
    }
    while i < v.len()
        invariant
            i <= v@.len(),
            collapse_digits(v@) == out@ + collapse_digits(v@.skip(i as int)),
        decreases v@.len() - i,
    {
        let ghost t = v@.skip(i as int);
        let ghost old_out = out@;
        if crate::ip_scrub::is_digit_exec(v[i]) {
            let n = crate::ip_scrub::digit_run_at(v, i);
            out.push('#');
            proof {
                assert(t[0] == v@[i as int]);
                assert(digit_run(t) == n as int);
                assert(n >= 1) by {
                    assert(digit_run(t) == 1 + digit_run(t.skip(1)));
                    lemma_digit_run_le_len(t.skip(1));
                }
                assert(t.skip(n as int) =~= v@.skip(i as int + n as int));
                assert(collapse_digits(t) == seq!['#'] + collapse_digits(
                    v@.skip(i as int + n as int),
                ));
                assert(old_out + collapse_digits(t) =~= out@ + collapse_digits(
                    v@.skip(i as int + n as int),
                ));
            }
            i = i + n;
        } else {
            out.push(v[i]);
            proof {
                assert(t[0] == v@[i as int]);
                assert(t.skip(1) =~= v@.skip(i as int + 1));
                assert(collapse_digits(t) == seq![t[0]] + collapse_digits(v@.skip(i as int + 1)));
                assert(old_out + collapse_digits(t) =~= out@ + collapse_digits(
                    v@.skip(i as int + 1),
                ));
            }
            i = i + 1;
        }
    }
    proof {
        assert(v@.skip(i as int).len() == 0);
        assert(collapse_digits(v@.skip(i as int)) =~= Seq::<char>::empty());
        assert(out@ =~= collapse_digits(v@));
    }
    out
}

/// One parsed fault entry, executable form.
struct FaultEntry {
    header: Vec<char>,
    body: Vec<Vec<char>>,
}

spec fn entry_view(e: FaultEntry) -> EntrySpec {
    EntrySpec { header: e.header@, body: e.body.deep_view() }
}

spec fn entries_view(es: Seq<FaultEntry>) -> Seq<EntrySpec> {
    es.map_values(|e: FaultEntry| entry_view(e))
}

/// One condensed fault group as published: its normalized signature, the
/// number of entries that shared it, and the header and trace lines of the
/// first of them.
pub struct CondensedGroup {
    pub signature: String,
    pub count: usize,
    pub header: String,
    pub body: Vec<String>,
}

/// The mathematical content of a published group.
pub open spec fn group_view(g: CondensedGroup) -> GroupSpec {
    GroupSpec {
        signature: g.signature@,
        count: g.count as int,
        header: g.header@,
        body: g.body.deep_view(),
    }
}

pub open spec fn groups_view(gs: Seq<CondensedGroup>) -> Seq<GroupSpec> {
    gs.map_values(|g: CondensedGroup| group_view(g))
}

fn copy_chars(l: &Vec<char>) -> (r: Vec<char>)
    ensures
        r@ == l@,
{
    let mut out: Vec<char> = Vec::new();
    let mut j: usize = 0;
    while j < l.len()
        invariant
            j <= l@.len(),
            out@ == l@.take(j as int),
        decreases l@.len() - j,
    {
        out.push(l[j]);
        assert(out@ =~= l@.take(j as int + 1));
        j = j + 1;
    }
    proof {
        assert(out@ =~= l@);
    }
    out
}

fn is_continuation_exec(l: &Vec<char>) -> (b: bool)
    ensures
        b == is_continuation(l@),
{
    l.len() > 0 && (l[0] == ' ' || l[0] == '\t')
}

proof fn lemma_cont_len_is(ls: Seq<Seq<char>>, k: int)
    requires
        0 <= k <= ls.len(),
        forall|j: int| 0 <= j < k ==> is_continuation(#[trigger] ls[j]),
        k < ls.len() ==> !is_continuation(ls[k]),
    ensures
        cont_len(ls) == k,
    decreases k,
{
    if k == 0 {
    } else {
        assert(is_continuation(ls[0]));
        assert forall|j: int| 0 <= j < k - 1 implies is_continuation(#[trigger] ls.skip(1)[j]) by {
            assert(ls.skip(1)[j] == ls[j + 1]);
        }
        if k - 1 < ls.skip(1).len() {
            assert(ls.skip(1)[k - 1] == ls[k]);
        }
        lemma_cont_len_is(ls.skip(1), k - 1);
    }
}

/// The fault entries of the split lines.
fn parse_entries_exec(lines: &Vec<Vec<char>>) -> (es: Vec<FaultEntry>)
    ensures
        entries_view(es@) == parse_entries(lines.deep_view()),
{
    let ghost dv = lines.deep_view();
    let mut es: Vec<FaultEntry> = Vec::new();
    let mut i: usize = 0;
    proof {
        assert(dv.skip(0) =~~= dv);
        assert(entries_view(es@) + parse_entries(dv) =~~= parse_entries(dv));
    }
    while i < lines.len()
        invariant
            i <= lines@.len(),
            lines@.len() == dv.len(),
            forall|k: int| 0 <= k < dv.len() ==> lines@[k]@ == dv[k],
            parse_entries(dv) == entries_view(es@) + parse_entries(dv.skip(i as int)),
        decreases lines@.len() - i,
    {
        let ghost t = dv.skip(i as int);
        let header_here = !is_continuation_exec(&lines[i]) && lines[i].len() > 0;
        if !header_here {
            proof {
                assert(t[0] == dv[i as int]);
                assert(!is_entry_header(t[0]));
                assert(t.skip(1) =~~= dv.skip(i as int + 1));
                assert(parse_entries(t) == parse_entries(dv.skip(i as int + 1)));
            }
            i = i + 1;
        } else {
            let header = copy_chars(&lines[i]);
            let mut body: Vec<Vec<char>> = Vec::new();
            let mut j: usize = i + 1;
            proof {
                assert(body.deep_view() =~~= dv.skip(i as int + 1).take(0));
            }
            while j < lines.len() && is_continuation_exec(&lines[j])
                invariant
                    i + 1 <= j <= lines@.len(),
                    lines@.len() == dv.len(),
                    forall|k: int| 0 <= k < dv.len() ==> lines@[k]@ == dv[k],
                    forall|k: int| i + 1 <= k < j ==> is_continuation(#[trigger] dv[k]),
                    body.deep_view() =~~= dv.skip(i as int + 1).take(j - (i + 1)),
                decreases lines@.len() - j,
            {
                let ghost old_body = body.deep_view();
                body.push(copy_chars(&lines[j]));
                proof {
                    assert(body.deep_view() =~~= old_body.push(dv[j as int]));
                    assert(dv.skip(i as int + 1)[j - (i + 1)] == dv[j as int]);
                    assert(body.deep_view() =~~= dv.skip(i as int + 1).take(j - (i + 1) + 1));
                }
                j = j + 1;
            }
            let ghost k = (j - (i + 1)) as int;
            proof {
                assert forall|x: int| 0 <= x < k implies is_continuation(
                    #[trigger] dv.skip(i as int + 1)[x],
                ) by {
                    assert(dv.skip(i as int + 1)[x] == dv[i + 1 + x]);
                }
                if k < dv.skip(i as int + 1).len() {
                    assert(dv.skip(i as int + 1)[k] == dv[j as int]);
                    assert(!is_continuation(dv[j as int]));
                }
                lemma_cont_len_is(dv.skip(i as int + 1), k);
            }
            let ghost old_es = es@;
            let entry = FaultEntry { header, body };
            es.push(entry);
            proof {
                let espec = EntrySpec {
                    header: t[0],
                    body: t.skip(1).take(cont_len(t.skip(1))),
                };
                assert(t[0] == dv[i as int]);
                assert(is_entry_header(t[0]));
                assert(t.skip(1) =~~= dv.skip(i as int + 1));
                assert(cont_len(t.skip(1)) == k);
                assert(parse_entries(t) == seq![espec] + parse_entries(t.skip(1 + k)));
                assert(entry_view(es@.last()) == espec) by {
                    assert(es@.last().header@ == dv[i as int]);
                    assert(es@.last().body.deep_view() =~~= t.skip(1).take(k));
                }
                assert(entries_view(es@) =~~= entries_view(old_es).push(espec));
                assert(t.skip(1 + k) =~~= dv.skip(j as int));
                assert(entries_view(old_es) + parse_entries(t) =~~= entries_view(es@)
                    + parse_entries(dv.skip(j as int)));
            }
            i = j;
        }
    }
    proof {
        assert(dv.skip(i as int).len() == 0);
        assert(parse_entries(dv.skip(i as int)) =~~= Seq::<EntrySpec>::empty());
        assert(entries_view(es@) =~~= parse_entries(dv));
    }
    es
}

fn find_group(gs: &Vec<CondensedGroup>, sig: &String) -> (r: Option<usize>)
    ensures
        match r {
            Some(x) => x < gs@.len() && gs@[x as int].signature@ == sig@,
            None => forall|y: int| 0 <= y < gs@.len() ==> (#[trigger] gs@[y]).signature@ != sig@,
        },
{
    let mut x: usize = 0;
    while x < gs.len()
        invariant
            x <= gs@.len(),
            forall|y: int| 0 <= y < x ==> (#[trigger] gs@[y]).signature@ != sig@,
        decreases gs@.len() - x,
    {
        if gs[x].signature.eq(sig) {
            return Some(x);
        }
        x = x + 1;
    }
    None
}

fn lines_to_strings(body: &Vec<Vec<char>>) -> (r: Vec<String>)
    ensures
        r.deep_view() == body.deep_view(),
{
    let mut out: Vec<String> = Vec::new();
    let mut j: usize = 0;
    while j < body.len()
        invariant
            j <= body@.len(),
            out.deep_view() =~~= body.deep_view().take(j as int),
        decreases body@.len() - j,
    {
        let ghost old_out = out.deep_view();
        out.push(chars_to_string(&body[j]));
        proof {
            assert(out.deep_view() =~~= old_out.push(body@[j as int]@));
            assert(body.deep_view()[j as int] == body@[j as int]@);
            assert(out.deep_view() =~~= body.deep_view().take(j as int + 1));
        }
        j = j + 1;
    }
    proof {
        assert(out.deep_view() =~~= body.deep_view());
    }
    out
}

/// Folds the parsed entries into condensed groups, first occurrence first.
fn group_entries_exec(entries: Vec<FaultEntry>) -> (gs: Vec<CondensedGroup>)
    ensures
        groups_view(gs@) == group_entries(entries_view(entries@)),
{
    let ghost evs = entries_view(entries@);
    let total = entries.len();
    let mut gs: Vec<CondensedGroup> = Vec::new();
    let mut j: usize = 0;
    proof {
        assert(evs.take(0) =~~= Seq::<EntrySpec>::empty());
        assert(groups_view(gs@) =~~= group_entries(evs.take(0)));
    }
    while j < total
        invariant
            j <= total,
            total == entries.len(),
            entries@.len() == evs.len(),
            forall|k: int| 0 <= k < evs.len() ==> entry_view(#[trigger] entries@[k]) == evs[k],
            groups_view(gs@) == group_entries(evs.take(j as int)),
        decreases total - j,
    {
        let ghost prevspec = group_entries(evs.take(j as int));
        let ghost sigspec = signature_of(evs[j as int]);
        let sigv = collapse_digits_exec(&entries[j].header);
        let sig = chars_to_string(&sigv);
        proof {
            assert(entry_view(entries@[j as int]) == evs[j as int]);
            assert(entries@[j as int].header@ == evs[j as int].header);
            assert(sig@ == sigspec);
            assert(evs.take(j as int + 1).drop_last() =~~= evs.take(j as int));
            assert(evs.take(j as int + 1).last() == evs[j as int]);
            lemma_groups_unique(evs.take(j as int));
            lemma_group_counts_bounded(evs.take(j as int));
        }
        let ghost newspec = group_entries(evs.take(j as int + 1));
        let found = find_group(&gs, &sig);
        match found {
            Some(x) => {
                proof {
                    assert(group_view(gs@[x as int]) == prevspec[x as int]);
                    assert(prevspec[x as int].signature == sigspec);
                    let i = choose|i: int|
                        0 <= i < prevspec.len() && prevspec[i].signature == sigspec;
                    assert(unique_signatures(prevspec));
                    assert(i == x as int);
                    assert(prevspec[x as int].count <= j as int);
                }
                let g = gs.remove(x);
                let ghost removed = gs@;
                let g2 = CondensedGroup {
                    signature: g.signature,
                    count: g.count + 1,
                    header: g.header,
                    body: g.body,
                };
                gs.insert(x, g2);
                proof {
                    let i = choose|i: int|
                        0 <= i < prevspec.len() && prevspec[i].signature == sigspec;
                    assert(i == x as int);
                    assert(newspec == prevspec.update(
                        i,
                        GroupSpec {
                            signature: prevspec[i].signature,
                            count: prevspec[i].count + 1,
                            header: prevspec[i].header,
                            body: prevspec[i].body,
                        },
                    ));
                    assert(groups_view(gs@) =~~= newspec);
                }
            },
            None => {
                proof {
                    assert forall|i: int|
                        0 <= i < prevspec.len() implies (#[trigger] prevspec[i]).signature
                        != sigspec by {
                        assert(group_view(gs@[i]) == prevspec[i]);
                    }
                    assert(!(exists|i: int|
                        0 <= i < prevspec.len() && prevspec[i].signature == sigspec));
                }
                let ghost e = entries@[j as int];
                let FaultEntry { header, body } = entries[j].clone_parts();
                let g2 = CondensedGroup {
                    signature: sig,
                    count: 1,
                    header: chars_to_string(&header),
                    body: lines_to_strings(&body),
                };
                gs.push(g2);
                proof {
                    assert(newspec == prevspec.push(
                        GroupSpec {
                            signature: sigspec,
                            count: 1,
                            header: evs[j as int].header,
                            body: evs[j as int].body,
                        },
                    ));
                    assert(groups_view(gs@) =~~= newspec);
                }
            },
        }
        j = j + 1;
    }
    proof {
        assert(evs.take(total as int) =~~= evs);
    }
    gs
}

impl FaultEntry {
    /// A copy of the entry's lines.
    fn clone_parts(&self) -> (r: FaultEntry)
        ensures
            entry_view(r) == entry_view(*self),
            r.header@ == self.header@,
            r.body.deep_view() == self.body.deep_view(),
    {
        let header = copy_chars(&self.header);
        let mut body: Vec<Vec<char>> = Vec::new();
        let mut j: usize = 0;
        while j < self.body.len()
            invariant
                j <= self.body@.len(),
                body.deep_view() =~~= self.body.deep_view().take(j as int),
            decreases self.body@.len() - j,
        {
            let ghost old_body = body.deep_view();
            body.push(copy_chars(&self.body[j]));
            proof {
                assert(body.deep_view() =~~= old_body.push(self.body@[j as int]@));
                assert(self.body.deep_view()[j as int] == self.body@[j as int]@);
                assert(body.deep_view() =~~= self.body.deep_view().take(j as int + 1));
            }
            j = j + 1;
        }
        proof {
            assert(body.deep_view() =~~= self.body.deep_view());
        }
        FaultEntry { header, body }
    }
}

/// The rendered lines of one group: a count-tagged header line, then the
/// representative trace lines.
pub open spec fn render_group(g: GroupSpec) -> Seq<Seq<char>> {
    seq![dec_str(g.count) + "x "@ + g.header] + g.body
}

/// The rendered lines of all groups, in order.
pub open spec fn render_groups(gs: Seq<GroupSpec>) -> Seq<Seq<char>>
    decreases gs.len(),
{
    if gs.len() == 0 {
        Seq::empty()
    } else {
        render_group(gs[0]) + render_groups(gs.skip(1))
    }
}

proof fn lemma_render_groups_snoc(gs: Seq<GroupSpec>, g: GroupSpec)
    ensures
        render_groups(gs.push(g)) == render_groups(gs) + render_group(g),
    decreases gs.len(),
{
    if gs.len() == 0 {
        assert(gs.push(g)[0] == g);
        assert(gs.push(g).skip(1) =~= Seq::<GroupSpec>::empty());
        assert(render_groups(gs.push(g)) == render_group(g) + render_groups(
            Seq::<GroupSpec>::empty(),
        ));
        assert(render_groups(Seq::<GroupSpec>::empty()) == Seq::<Seq<char>>::empty());
        assert(render_groups(gs.push(g)) =~~= render_groups(gs) + render_group(g));
    } else {
        assert(gs.push(g).skip(1) =~~= gs.skip(1).push(g));
        lemma_render_groups_snoc(gs.skip(1), g);
        assert(gs.push(g)[0] == gs[0]);
        assert(render_groups(gs.push(g)) == render_group(gs[0]) + render_groups(
            gs.skip(1).push(g),
        ));
        assert(render_groups(gs) == render_group(gs[0]) + render_groups(gs.skip(1)));
        assert(render_groups(gs.push(g)) =~~= render_groups(gs) + render_group(g));
    }
}

fn render_groups_exec(gs: &Vec<CondensedGroup>) -> (lines: Vec<Vec<char>>)
    ensures
        lines.deep_view() == render_groups(groups_view(gs@)),
{
    let ghost gvs = groups_view(gs@);
    let mut lines: Vec<Vec<char>> = Vec::new();
    let mut x: usize = 0;
    proof {
        assert(gvs.take(0) =~~= Seq::<GroupSpec>::empty());
        assert(lines.deep_view() =~~= render_groups(gvs.take(0)));
    }
    while x < gs.len()
        invariant
            x <= gs@.len(),
            gs@.len() == gvs.len(),
            forall|k: int| 0 <= k < gvs.len() ==> group_view(#[trigger] gs@[k]) == gvs[k],
            lines.deep_view() =~~= render_groups(gvs.take(x as int)),
        decreases gs@.len() - x,
    {
        let ghost old_lines = lines.deep_view();
        let g = &gs[x];
        let mut hl = u64_to_dec(g.count as u64);
        hl.push('x');
        hl.push(' ');
        let ghost head = dec_str(g.count as int) + "x "@;
        proof {
            reveal_strlit("x ");
            assert(hl@ =~= head);
        }
        let hv = str_to_chars(g.header.as_str());
        let mut k: usize = 0;
        while k < hv.len()
            invariant
                k <= hv@.len(),
                hv@ == gs@[x as int].header@,
                x < gs@.len(),
                hl@ == head + hv@.take(k as int),
            decreases hv@.len() - k,
        {
            hl.push(hv[k]);
            assert(hl@ =~= head + hv@.take(k as int + 1));
            k = k + 1;
        }
        proof {
            assert(hl@ =~= head + hv@);
        }
        lines.push(hl);
        let ghost after_header = lines.deep_view();
        let mut b: usize = 0;
        proof {
            assert(after_header =~~= old_lines.push(head + gs@[x as int].header@));
        }
        while b < gs[x].body.len()
            invariant
                x < gs@.len(),
                gs@.len() == gvs.len(),
                forall|k2: int| 0 <= k2 < gvs.len() ==> group_view(#[trigger] gs@[k2]) == gvs[k2],
                b <= gs@[x as int].body@.len(),
                lines.deep_view() =~~= after_header + gs@[x as int].body.deep_view().take(
                    b as int,
                ),
            decreases gs@[x as int].body@.len() - b,
        {
            let ghost old2 = lines.deep_view();
            lines.push(str_to_chars(gs[x].body[b].as_str()));
            proof {
                assert(gs@[x as int].body.deep_view()[b as int] == gs@[x as int].body@[b as int]@);
                assert(lines.deep_view() =~~= old2.push(gs@[x as int].body@[b as int]@));
                assert(lines.deep_view() =~~= after_header + gs@[x as int].body.deep_view().take(
                    b as int + 1,
                ));
            }
            b = b + 1;
        }
        proof {
            let gv = gvs[x as int];
            assert(gs@[x as int].body.deep_view().take(gs@[x as int].body@.len() as int) =~~= gv.body);
            assert(lines.deep_view() =~~= old_lines + render_group(gv)) by {
                assert(render_group(gv) == seq![dec_str(gv.count) + "x "@ + gv.header] + gv.body);
                assert(head + gs@[x as int].header@ == dec_str(gv.count) + "x "@ + gv.header);
            }
            assert(gvs.take(x as int + 1) =~~= gvs.take(x as int).push(gv));
            lemma_render_groups_snoc(gvs.take(x as int), gv);
            assert(lines.deep_view() =~~= render_groups(gvs.take(x as int + 1)));
        }
        x = x + 1;
    }
    proof {
        assert(gvs.take(gvs.len() as int) =~~= gvs);
    }
    lines
}

/// What the condenser works on: the raw text after identifier scrubbing
/// and verbatim-string scrubbing.
pub open spec fn spec_condense_input(s: Seq<char>) -> Seq<char> {
    spec_scrub(spec_scrub_ips(s))
}

/// The condensed groups of a raw runtime log.
pub open spec fn spec_condensed_groups(s: Seq<char>) -> Seq<GroupSpec> {
    group_entries(parse_entries(spec_lines(spec_condense_input(s))))
}

/// The compact text rendering of a raw runtime log.
pub open spec fn spec_condense_text(s: Seq<char>) -> Seq<char> {
    spec_join_lines(render_groups(spec_condensed_groups(s)))
}

/// The condensed form of a raw runtime log: the compact text and the
/// structured report, both derived from the scrubbed content, grouped by
/// signature in first-occurrence order.
pub fn condense_runtimes_log(contents: &str) -> (r: (String, Vec<CondensedGroup>))
    ensures
        r.0@ == spec_condense_text(contents@),
        groups_view(r.1@) == spec_condensed_groups(contents@),
{
    let filtered = crate::ip_scrub::filter_ips(contents);
    let scrubbed = crate::runtimes::process_runtimes_log(filtered.as_str());
    let chars = str_to_chars(scrubbed.as_str());
    let lines = to_lines(&chars);
    let entries = parse_entries_exec(&lines);
    let gs = group_entries_exec(entries);
    let rendered = render_groups_exec(&gs);
    if rendered.len() == 0 {
        proof {
            assert(spec_join_lines(render_groups(spec_condensed_groups(contents@)))
                =~= Seq::<char>::empty());
        }
        (String::new(), gs)
    } else {
        let joined = join_lines(&rendered);
        (chars_to_string(&joined), gs)
    }
}

/// Condensing is deterministic: it is a function of the input text alone,
/// so equal inputs give byte-identical text and identical reports.
pub proof fn lemma_condense_deterministic(x: Seq<char>, y: Seq<char>)
    requires
        x == y,
    ensures
        spec_condense_text(x) == spec_condense_text(y),
        spec_condensed_groups(x) == spec_condensed_groups(y),
{
}


/// Conservation at the interface: the counts of the condensed groups of a
/// raw log add up to the number of fault entries parsed from it.
pub proof fn lemma_condensed_groups_conservation(s: Seq<char>)
    ensures
        sum_counts(spec_condensed_groups(s)) == parse_entries(
            spec_lines(spec_condense_input(s)),
        ).len(),
{
    lemma_condense_conservation(parse_entries(spec_lines(spec_condense_input(s))));
}

/// Order at the interface: the condensed groups of a raw log carry the
/// entry signatures deduplicated in order of first appearance.
pub proof fn lemma_condensed_groups_order(s: Seq<char>)
    ensures
        spec_condensed_groups(s).map_values(|g: GroupSpec| g.signature) == first_occurrence_dedup(
            parse_entries(spec_lines(spec_condense_input(s))).map_values(
                |e: EntrySpec| signature_of(e),
            ),
        ),
{
    lemma_condense_first_occurrence_order(parse_entries(spec_lines(spec_condense_input(s))));
}

} // verus!
