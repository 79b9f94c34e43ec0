//! Runtime-log scrubbing: the verbatim-string scrubber applied line by line.
//!
//! A runtime log may echo interpreter-printed strings verbatim; such a string
//! can carry arbitrary player-influenced content, so any line carrying one is
//! replaced whole by a fixed marker. Lines are read as a log consumer reads
//! them (`\n` or `\r\n` endings, a final newline closing the last line);
//! the transform preserves their number and is idempotent, except on a text
//! whose last line is blank or whose lines end in stray carriage returns,
//! where one joining pass eats what a reader would not count anyway.
use vstd::prelude::*;

use crate::text::all_newline_free;
use crate::text::chars_to_string;
use crate::text::contains_sub;
use crate::text::cr_free_line_ends;
use crate::text::ends_with_cr;
use crate::text::has_sub_at;
use crate::text::join_lines;
use crate::text::lemma_lines_of_join_count;
use crate::text::lemma_lines_of_join_exact;
use crate::text::lemma_spec_lines_newline_free;
use crate::text::line_count;
use crate::text::newline_free;
use crate::text::no_trailing_blank_line;
use crate::text::spec_join_lines;
use crate::text::spec_lines;
use crate::text::str_to_chars;
use crate::text::to_lines;

verus! {

/// The introductory phrase that marks a line as echoing an
/// interpreter-printed string verbatim.
pub open spec fn verbatim_needle() -> Seq<char> {
    "Cannot read \""@
}

/// The fixed marker that replaces such a line whole.
pub open spec fn verbatim_marker() -> Seq<char> {
    "-censored (string output)"@
}

/// What the verbatim-string scrubber does to one line.
pub open spec fn spec_scrub_line(l: Seq<char>) -> Seq<char> {
    if contains_sub(l, verbatim_needle()) {
        verbatim_marker()
    } else {
        l
    }
}

/// The scrub of a whole text: every line scrubbed, the lines joined back
/// with a newline between each pair (a final newline or `\r` line endings
/// of the input are not reproduced).
pub open spec fn spec_scrub(s: Seq<char>) -> Seq<char> {
    spec_join_lines(spec_lines(s).map_values(|l: Seq<char>| spec_scrub_line(l)))
}

/// Relies on `regex::Regex::new` and `Regex::replace`: the anchored pattern
/// `^.*Cannot read ".*$` matches a newline-free haystack exactly when it
/// contains `Cannot read "` (`.` never matches a newline and the anchors
/// bind to the ends of the haystack), and `replace` substitutes the literal
/// marker for that single match, or hands the haystack back unchanged when
/// nothing matches.
#[verifier::external_body]
fn scrub_verbatim_line(line: &str) -> (r: String)
    requires
        newline_free(line@),
    ensures
        r@ == spec_scrub_line(line@),
{
    let pattern = regex::Regex::new(r#"^.*Cannot read ".*$"#).unwrap();
    pattern.replace(line, "-censored (string output)").into_owned()
}

/// The published form of a runtime log: every line that echoes a verbatim
/// interpreter string is replaced whole by the fixed marker; every other
/// line passes through unchanged, and the lines are joined back with one
/// newline between each pair.
pub fn process_runtimes_log(contents: &str) -> (r: String)
    ensures
        r@ == spec_scrub(contents@),
{
    let chars = str_to_chars(contents);
    let lines = to_lines(&chars);
    proof {
        lemma_spec_lines_newline_free(chars@);
    }
    let ghost dv = lines.deep_view();
    let mut scrubbed: Vec<Vec<char>> = Vec::new();
    let mut i: usize = 0;
    while i < lines.len()
        invariant
            i <= lines@.len(),
            lines@.len() == dv.len(),
            dv == spec_lines(contents@),
            all_newline_free(dv),
            forall|k: int| 0 <= k < dv.len() ==> lines@[k]@ == dv[k],
            scrubbed.deep_view() =~~= dv.take(i as int).map_values(
                |l: Seq<char>| spec_scrub_line(l),
            ),
        decreases lines@.len() - i,
    {
        let line = chars_to_string(&lines[i]);
        proof {
            assert(line@ == dv[i as int]);
            assert(newline_free(dv[i as int]));
        }
        let out = scrub_verbatim_line(line.as_str());
        let ghost old_scrubbed = scrubbed.deep_view();
        scrubbed.push(str_to_chars(out.as_str()));
        proof {
            assert(scrubbed.deep_view() =~~= old_scrubbed.push(out@));
            assert(scrubbed.deep_view() =~~= dv.take(i as int + 1).map_values(
                |l: Seq<char>| spec_scrub_line(l),
            ));
        }
        i = i + 1;
    }
    proof {
        assert(dv.take(dv.len() as int) =~~= dv);
        assert(scrubbed.deep_view() =~~= dv.map_values(|l: Seq<char>| spec_scrub_line(l)));
    }
    if scrubbed.len() == 0 {
        proof {
            assert(spec_scrub(contents@) =~= Seq::<char>::empty());
        }
        String::new()
    } else {
        let joined = join_lines(&scrubbed);
        chars_to_string(&joined)
    }
}

/// The marker contains no newline, so a scrubbed line never does either.
proof fn lemma_marker_newline_free()
    ensures
        newline_free(verbatim_marker()),
{
    reveal_strlit("-censored (string output)");
    assert forall|i: int| 0 <= i < verbatim_marker().len() implies verbatim_marker()[i] != '\n' by {
        assert(verbatim_marker().len() == 25);
    }
}

/// Scrubbing a newline-free line yields a newline-free line.
proof fn lemma_scrub_line_newline_free(l: Seq<char>)
    requires
        newline_free(l),
    ensures
        newline_free(spec_scrub_line(l)),
{
    lemma_marker_newline_free();
}

/// The marker itself never carries the needle, so scrubbing a line twice is
/// the same as scrubbing it once.
proof fn lemma_scrub_line_idempotent(l: Seq<char>)
    ensures
        spec_scrub_line(spec_scrub_line(l)) == spec_scrub_line(l),
{
    if contains_sub(l, verbatim_needle()) {
        lemma_marker_free_of_needle();
    }
}

/// The marker does not contain the needle: the needle starts with a capital
/// `C` and the marker has no capital letter at all.
proof fn lemma_marker_free_of_needle()
    ensures
        !contains_sub(verbatim_marker(), verbatim_needle()),
{
    reveal_strlit("-censored (string output)");
    reveal_strlit("Cannot read \"");
    assert(verbatim_needle()[0] == 'C');
    assert forall|i: int| !has_sub_at(verbatim_marker(), verbatim_needle(), i) by {
        if has_sub_at(verbatim_marker(), verbatim_needle(), i) {
            assert(verbatim_marker().subrange(i, i + verbatim_needle().len() as int)[0]
                == verbatim_marker()[i]);
            assert(verbatim_marker()[i] == 'C');
            assert(verbatim_marker().len() == 25);
            assert(forall|j: int| 0 <= j < 25 ==> verbatim_marker()[j] != 'C');
        }
    }
}

/// A nonempty line scrubs to a nonempty line.
proof fn lemma_scrub_line_nonempty(l: Seq<char>)
    requires
        l.len() > 0,
    ensures
        spec_scrub_line(l).len() > 0,
{
    reveal_strlit("-censored (string output)");
}

/// The marker does not end in a carriage return.
proof fn lemma_marker_cr_free()
    ensures
        !ends_with_cr(verbatim_marker()),
{
    reveal_strlit("-censored (string output)");
    assert(verbatim_marker().len() == 25);
}

/// Scrubbing preserves the number of lines, as long as the text does not
/// end in a blank line (a blank last line is lost when the scrubbed lines
/// are joined back, just as a reference reader loses it).
pub proof fn lemma_scrub_preserves_line_count(s: Seq<char>)
    requires
        no_trailing_blank_line(s),
    ensures
        line_count(spec_scrub(s)) == line_count(s),
{
    let lines = spec_lines(s);
    let mapped = lines.map_values(|l: Seq<char>| spec_scrub_line(l));
    lemma_spec_lines_newline_free(s);
    if lines.len() == 0 {
        assert(spec_scrub(s) =~= Seq::<char>::empty());
        crate::text::lemma_line_count_formula(spec_scrub(s));
    } else {
        assert forall|i: int| 0 <= i < mapped.len() implies newline_free(#[trigger] mapped[i]) by {
            lemma_scrub_line_newline_free(lines[i]);
        }
        lemma_scrub_line_nonempty(lines.last());
        assert(mapped.last() == spec_scrub_line(lines.last()));
        lemma_lines_of_join_count(mapped);
    }
}

/// Scrubbing is idempotent: a second pass changes nothing, as long as the
/// text does not end in a blank line and no line of it ends in a carriage
/// return (both are lost when the scrubbed lines are joined back).
pub proof fn lemma_scrub_idempotent(s: Seq<char>)
    requires
        no_trailing_blank_line(s),
        cr_free_line_ends(s),
    ensures
        spec_scrub(spec_scrub(s)) == spec_scrub(s),
{
    let lines = spec_lines(s);
    let mapped = lines.map_values(|l: Seq<char>| spec_scrub_line(l));
    lemma_spec_lines_newline_free(s);
    if lines.len() == 0 {
        assert(spec_scrub(s) =~= Seq::<char>::empty());
        assert(spec_lines(spec_scrub(s)) == spec_lines(Seq::<char>::empty()));
        assert(spec_lines(Seq::<char>::empty()).len() == 0) by {
            crate::text::lemma_line_count_formula(Seq::<char>::empty());
        }
        assert(spec_scrub(spec_scrub(s)) =~= Seq::<char>::empty());
    } else {
        assert forall|i: int| 0 <= i < mapped.len() implies newline_free(#[trigger] mapped[i]) by {
            lemma_scrub_line_newline_free(lines[i]);
        }
        lemma_scrub_line_nonempty(lines.last());
        assert(mapped.last() == spec_scrub_line(lines.last()));
        assert forall|i: int| 0 <= i < mapped.len() implies !ends_with_cr(#[trigger] mapped[i]) by {
            lemma_marker_cr_free();
            assert(mapped[i] == spec_scrub_line(lines[i]));
            assert(!ends_with_cr(lines[i]));
        }
        lemma_lines_of_join_exact(mapped);
        assert(spec_lines(spec_scrub(s)) == mapped);
        assert(mapped.map_values(|l: Seq<char>| spec_scrub_line(l)) =~~= mapped) by {
            assert forall|i: int|
                0 <= i < mapped.len() implies spec_scrub_line(#[trigger] mapped[i]) == mapped[i] by {
                lemma_scrub_line_idempotent(lines[i]);
            }
        }
    }
}


/// The marker holds no digit, so no identifier starts anywhere in it.
proof fn lemma_marker_no_ip_match()
    ensures
        crate::ip_scrub::no_ip_match(verbatim_marker()),
{
    reveal_strlit("-censored (string output)");
    assert(verbatim_marker().len() == 25);
    assert forall|i: int| 0 <= i <= verbatim_marker().len() implies !crate::ip_scrub::ip_match_at(
        #[trigger] verbatim_marker().skip(i),
    ) by {
        if i < verbatim_marker().len() {
            assert(verbatim_marker().skip(i)[0] == verbatim_marker()[i]);
            assert(!crate::ip_scrub::is_digit(verbatim_marker()[i]));
        }
        crate::ip_scrub::lemma_no_match_without_digit(verbatim_marker().skip(i));
    }
}

/// The scrub never introduces a network identifier: each published line is
/// a line of the input or the fixed marker, neither of which holds one,
/// and the joining newlines cannot take part in one.
pub proof fn lemma_scrub_keeps_no_ip_match(u: Seq<char>)
    requires
        crate::ip_scrub::no_ip_match(u),
    ensures
        crate::ip_scrub::no_ip_match(spec_scrub(u)),
{
    let lines = spec_lines(u);
    let mapped = lines.map_values(|l: Seq<char>| spec_scrub_line(l));
    lemma_spec_lines_newline_free(u);
    crate::ip_scrub::lemma_lines_no_match(u);
    lemma_marker_no_ip_match();
    assert forall|i: int| 0 <= i < mapped.len() implies newline_free(#[trigger] mapped[i]) by {
        lemma_scrub_line_newline_free(lines[i]);
    }
    assert forall|i: int| 0 <= i < mapped.len() implies crate::ip_scrub::no_ip_match(
        #[trigger] mapped[i],
    ) by {
        assert(mapped[i] == spec_scrub_line(lines[i]));
        assert(crate::ip_scrub::no_ip_match(lines[i]));
    }
    crate::ip_scrub::lemma_join_no_match(mapped);
}

/// The published runtime transform leaves nothing for the identifier
/// scrubber: scrubbing identifiers again after the full transform changes
/// nothing, so the transform's identifier pass is idempotent across the
/// composition.
pub proof fn lemma_runtime_scrub_ip_stable(s: Seq<char>)
    ensures
        crate::ip_scrub::spec_scrub_ips(
            spec_scrub(crate::ip_scrub::spec_scrub_ips(s)),
        ) == spec_scrub(crate::ip_scrub::spec_scrub_ips(s)),
{
    crate::ip_scrub::lemma_scrub_ips_no_match(s);
    lemma_scrub_keeps_no_ip_match(crate::ip_scrub::spec_scrub_ips(s));
    crate::ip_scrub::lemma_scrub_ips_identity(spec_scrub(crate::ip_scrub::spec_scrub_ips(s)));
}

} // verus!
