//! Game-log censor: category-tag based, line by line.
//!
//! Each line is expected to carry a leading category tag ended by a colon.
//! Lines of public categories pass unchanged; lines of private admin
//! categories keep their tag but lose their remainder to a fixed marker; a
//! nonempty line whose tag is unrecognized, or which has no colon at all, is
//! replaced whole by a distinct generic marker — unrecognized text must
//! never pass through verbatim. Blank lines carry nothing and stay blank.
use vstd::prelude::*;

use crate::text::chars_to_string;
use crate::text::join_lines;
use crate::text::lemma_lines_of_join_count;
use crate::text::lemma_spec_lines_newline_free;
use crate::text::line_count;
use crate::text::newline_free;
use crate::text::no_trailing_blank_line;
use crate::text::prefix_eq_str;
use crate::text::spec_join_lines;
use crate::text::spec_lines;
use crate::text::str_to_chars;
use crate::text::to_lines;

verus! {

/// The category tags whose lines are published unchanged.
pub open spec fn public_tags() -> Seq<Seq<char>> {
    seq![
        "GAME"@,
        "GAME-INTERNET-REQUEST"@,
        "GAME-RADIO-EMOTE"@,
        "SAY"@,
        "OOC"@,
        "EMOTE"@,
        "WHISPER"@,
        "ATTACK"@,
        "ACCESS"@,
        "VOTE"@,
        "TOPIC"@,
    ]
}

/// The private admin categories: the tag stays, the remainder is hidden.
pub open spec fn private_tags() -> Seq<Seq<char>> {
    seq!["ADMIN"@, "ADMIN-HELP"@, "ADMIN-PM"@]
}

/// Replaces the remainder of a private-category line.
pub open spec fn private_marker() -> Seq<char> {
    "-censored (ahelp/notes/etc)-"@
}

/// Replaces a whole uncategorized or malformed line.
pub open spec fn generic_marker() -> Seq<char> {
    "-censored (no category)-"@
}

/// The index of the first colon in the line, or `-1` when it has none.
pub open spec fn first_colon(l: Seq<char>) -> int
    decreases l.len(),
{
    if l.len() == 0 {
        -1
    } else if l[0] == ':' {
        0
    } else {
        let r = first_colon(l.skip(1));
        if r < 0 {
            -1
        } else {
            1 + r
        }
    }
}

/// What the censor does to one line. A blank line carries nothing and
/// passes through; any other line without a recognizable tag is replaced
/// whole.
pub open spec fn spec_censor_line(l: Seq<char>) -> Seq<char> {
    let c = first_colon(l);
    if l.len() == 0 {
        l
    } else if c < 0 {
        generic_marker()
    } else {
        let tag = l.take(c);
        if public_tags().contains(tag) {
            l
        } else if private_tags().contains(tag) {
            tag + ": "@ + private_marker()
        } else {
            generic_marker()
        }
    }
}

/// The censor of a whole text: every line censored, the lines joined back
/// with a newline between each pair (a final newline or `\r` line endings
/// of the input are not reproduced).
pub open spec fn spec_censor(s: Seq<char>) -> Seq<char> {
    spec_join_lines(spec_lines(s).map_values(|l: Seq<char>| spec_censor_line(l)))
}

pub proof fn lemma_first_colon_bounds(l: Seq<char>)
    ensures
        first_colon(l) >= 0 ==> first_colon(l) < l.len() && l[first_colon(l)] == ':',
        first_colon(l) >= -1,
    decreases l.len(),
{
    if l.len() != 0 && l[0] != ':' {
        lemma_first_colon_bounds(l.skip(1));
        if first_colon(l) >= 0 {
            assert(l.skip(1)[first_colon(l.skip(1))] == l[first_colon(l)]);
        }
    }
}

/// The first colon is at `c` exactly when `c` carries a colon and nothing
/// before it does.
proof fn lemma_first_colon_at(l: Seq<char>, c: int)
    requires
        0 <= c < l.len(),
        l[c] == ':',
        forall|j: int| 0 <= j < c ==> l[j] != ':',
    ensures
        first_colon(l) == c,
    decreases c,
{
    if c == 0 {
    } else {
        assert(l[0] != ':');
        assert forall|j: int| 0 <= j < c - 1 implies l.skip(1)[j] != ':' by {
            assert(l.skip(1)[j] == l[j + 1]);
        }
        assert(l.skip(1)[c - 1] == l[c]);
        lemma_first_colon_at(l.skip(1), c - 1);
    }
}

/// A line without a colon has no first colon.
proof fn lemma_first_colon_none(l: Seq<char>)
    requires
        forall|j: int| 0 <= j < l.len() ==> l[j] != ':',
    ensures
        first_colon(l) == -1,
    decreases l.len(),
{
    if l.len() != 0 {
        assert forall|j: int| 0 <= j < l.skip(1).len() implies l.skip(1)[j] != ':' by {
            assert(l.skip(1)[j] == l[j + 1]);
        }
        lemma_first_colon_none(l.skip(1));
    }
}

/// Whether the tag (the line up to `c`) names a public category.
fn tag_is_public(line: &Vec<char>, c: usize) -> (b: bool)
    requires
        c <= line@.len(),
    ensures
        b == public_tags().contains(line@.take(c as int)),
{
    let ghost tag = line@.take(c as int);
    let b = prefix_eq_str(line, c, "GAME") || prefix_eq_str(line, c, "GAME-INTERNET-REQUEST")
        || prefix_eq_str(line, c, "GAME-RADIO-EMOTE") || prefix_eq_str(line, c, "SAY")
        || prefix_eq_str(line, c, "OOC") || prefix_eq_str(line, c, "EMOTE") || prefix_eq_str(
        line,
        c,
        "WHISPER",
    ) || prefix_eq_str(line, c, "ATTACK") || prefix_eq_str(line, c, "ACCESS") || prefix_eq_str(
        line,
        c,
        "VOTE",
    ) || prefix_eq_str(line, c, "TOPIC");
    proof {
        if b {
            assert(public_tags().contains(tag));
        } else {
            if public_tags().contains(tag) {
                let i = choose|i: int|
                    0 <= i < public_tags().len() && public_tags()[i] == tag;
                assert(false);
            }
        }
    }
    b
}

/// Whether the tag names a private admin category.
fn tag_is_private(line: &Vec<char>, c: usize) -> (b: bool)
    requires
        c <= line@.len(),
    ensures
        b == private_tags().contains(line@.take(c as int)),
{
    let ghost tag = line@.take(c as int);
    let b = prefix_eq_str(line, c, "ADMIN") || prefix_eq_str(line, c, "ADMIN-HELP")
        || prefix_eq_str(line, c, "ADMIN-PM");
    proof {
        if b {
            assert(private_tags().contains(tag));
        } else {
            if private_tags().contains(tag) {
                let i = choose|i: int|
                    0 <= i < private_tags().len() && private_tags()[i] == tag;
                assert(false);
            }
        }
    }
    b
}

/// One line censored.
fn censor_line(line: &Vec<char>) -> (r: Vec<char>)
    ensures
        r@ == spec_censor_line(line@),
{
    if line.len() == 0 {
        let empty: Vec<char> = Vec::new();
        proof {
            assert(empty@ =~= line@);
        }
        return empty;
    }
    let mut c: usize = 0;
    while c < line.len() && line[c] != ':'
        invariant
            c <= line@.len(),
            forall|j: int| 0 <= j < c ==> line@[j] != ':',
        decreases line@.len() - c,
    {
        c = c + 1;
    }
    if c >= line.len() {
        proof {
            lemma_first_colon_none(line@);
        }
        return str_to_chars("-censored (no category)-");
    }
    proof {
        lemma_first_colon_at(line@, c as int);
    }
    if tag_is_public(line, c) {
        let mut copy: Vec<char> = Vec::new();
        let mut j: usize = 0;
        while j < line.len()
            invariant
                j <= line@.len(),
                copy@ == line@.take(j as int),
            decreases line@.len() - j,
        {
            copy.push(line[j]);
            assert(copy@ =~= line@.take(j as int + 1));
            j = j + 1;
        }
        proof {
            assert(copy@ =~= line@);
        }
        copy
    } else if tag_is_private(line, c) {
        let mut out: Vec<char> = Vec::new();
        let mut j: usize = 0;
        while j < c
            invariant
                j <= c <= line@.len(),
                out@ == line@.take(j as int),
            decreases c - j,
        {
            out.push(line[j]);
            assert(out@ =~= line@.take(j as int + 1));
            j = j + 1;
        }
        out.push(':');
        out.push(' ');
        let ghost head = line@.take(c as int) + ": "@;
        proof {
            reveal_strlit(": ");
            assert(out@ =~= head);
        }
        let marker = str_to_chars("-censored (ahelp/notes/etc)-");
        let mut k: usize = 0;
        while k < marker.len()
            invariant
                k <= marker@.len(),
                marker@ == private_marker(),
                out@ == head + marker@.take(k as int),
            decreases marker@.len() - k,
        {
            out.push(marker[k]);
            assert(out@ =~= head + marker@.take(k as int + 1));
            k = k + 1;
        }
        proof {
            assert(out@ =~= head + private_marker());
        }
        out
    } else {
        str_to_chars("-censored (no category)-")
    }
}

/// The published form of a game log: public lines unchanged, private lines
/// reduced to their tag and a marker, blank lines kept blank, everything
/// else replaced by the generic marker; the lines joined back with one
/// newline between each pair.
pub fn censor_game_log(contents: &str) -> (r: String)
    ensures
        r@ == spec_censor(contents@),
{
    let chars = str_to_chars(contents);
    let lines = to_lines(&chars);
    let ghost dv = lines.deep_view();
    let mut censored: Vec<Vec<char>> = Vec::new();
    let mut i: usize = 0;
    while i < lines.len()
        invariant
            i <= lines@.len(),
            lines@.len() == dv.len(),
            dv == spec_lines(contents@),
            forall|k: int| 0 <= k < dv.len() ==> lines@[k]@ == dv[k],
            censored.deep_view() =~~= dv.take(i as int).map_values(
                |l: Seq<char>| spec_censor_line(l),
            ),
        decreases lines@.len() - i,
    {
        let out = censor_line(&lines[i]);
        let ghost old_censored = censored.deep_view();
        censored.push(out);
        proof {
            assert(censored.deep_view() =~~= old_censored.push(out@));
            assert(censored.deep_view() =~~= dv.take(i as int + 1).map_values(
                |l: Seq<char>| spec_censor_line(l),
            ));
        }
        i = i + 1;
    }
    proof {
        assert(dv.take(dv.len() as int) =~~= dv);
        assert(censored.deep_view() =~~= dv.map_values(|l: Seq<char>| spec_censor_line(l)));
    }
    if censored.len() == 0 {
        proof {
            assert(spec_censor(contents@) =~= Seq::<char>::empty());
        }
        String::new()
    } else {
        let joined = join_lines(&censored);
        chars_to_string(&joined)
    }
}

/// Neither marker carries a newline.
proof fn lemma_markers_newline_free()
    ensures
        newline_free(private_marker()),
        newline_free(generic_marker()),
{
    reveal_strlit("-censored (ahelp/notes/etc)-");
    reveal_strlit("-censored (no category)-");
    assert(private_marker().len() == 28);
    assert(generic_marker().len() == 24);
}

/// Censoring a newline-free line yields a newline-free line.
proof fn lemma_censor_line_newline_free(l: Seq<char>)
    requires
        newline_free(l),
    ensures
        newline_free(spec_censor_line(l)),
{
    lemma_markers_newline_free();
    lemma_first_colon_bounds(l);
    let c = first_colon(l);
    if c >= 0 {
        let tag = l.take(c);
        if !public_tags().contains(tag) && private_tags().contains(tag) {
            reveal_strlit(": ");
            let r = tag + ": "@ + private_marker();
            assert forall|j: int| 0 <= j < r.len() implies r[j] != '\n' by {
                if j < tag.len() {
                    assert(r[j] == l[j]);
                } else if j < tag.len() + 2 {
                    assert(": "@.len() == 2);
                    assert(r[j] == ": "@[j - tag.len()]);
                } else {
                    assert(r[j] == private_marker()[j - tag.len() - 2]);
                }
            }
        }
    }
}

/// A nonempty line censors to a nonempty line: both markers hold text,
/// a private line keeps at least its separator, and a public line stays.
proof fn lemma_censor_line_nonempty(l: Seq<char>)
    requires
        l.len() > 0,
    ensures
        spec_censor_line(l).len() > 0,
{
    reveal_strlit("-censored (ahelp/notes/etc)-");
    reveal_strlit("-censored (no category)-");
}

/// Censoring preserves the number of lines, as long as the text does not
/// end in a blank line (a blank last line is lost when the censored lines
/// are joined back, just as a reference reader loses it).
pub proof fn lemma_censor_preserves_line_count(s: Seq<char>)
    requires
        no_trailing_blank_line(s),
    ensures
        line_count(spec_censor(s)) == line_count(s),
{
    let lines = spec_lines(s);
    let mapped = lines.map_values(|l: Seq<char>| spec_censor_line(l));
    lemma_spec_lines_newline_free(s);
    if lines.len() == 0 {
        assert(spec_censor(s) =~= Seq::<char>::empty());
        crate::text::lemma_line_count_formula(spec_censor(s));
    } else {
        assert forall|i: int| 0 <= i < mapped.len() implies newline_free(#[trigger] mapped[i]) by {
            lemma_censor_line_newline_free(lines[i]);
        }
        lemma_censor_line_nonempty(lines.last());
        assert(mapped.last() == spec_censor_line(lines.last()));
        lemma_lines_of_join_count(mapped);
    }
}

/// No tag is both public and private: the private tags all start with
/// `ADMIN`, which no public tag of the same length does.
proof fn lemma_tag_tables_disjoint(tag: Seq<char>)
    requires
        private_tags().contains(tag),
    ensures
        !public_tags().contains(tag),
{
    reveal_strlit("ADMIN");
    reveal_strlit("ADMIN-HELP");
    reveal_strlit("ADMIN-PM");
    reveal_strlit("GAME");
    reveal_strlit("GAME-INTERNET-REQUEST");
    reveal_strlit("GAME-RADIO-EMOTE");
    reveal_strlit("SAY");
    reveal_strlit("OOC");
    reveal_strlit("EMOTE");
    reveal_strlit("WHISPER");
    reveal_strlit("ATTACK");
    reveal_strlit("ACCESS");
    reveal_strlit("VOTE");
    reveal_strlit("TOPIC");
    let i = choose|i: int| 0 <= i < private_tags().len() && private_tags()[i] == tag;
    assert(tag[0] == 'A' && tag.len() >= 5 && tag[1] == 'D');
    if public_tags().contains(tag) {
        let j = choose|j: int| 0 <= j < public_tags().len() && public_tags()[j] == tag;
        assert(false);
    }
}

/// A private-category line is reduced to its tag, the separator and the
/// fixed marker: nothing of its remainder survives censoring.
pub proof fn lemma_private_line_redacted(l: Seq<char>)
    requires
        first_colon(l) >= 0,
        private_tags().contains(l.take(first_colon(l))),
    ensures
        spec_censor_line(l) == l.take(first_colon(l)) + ": "@ + private_marker(),
{
    lemma_first_colon_bounds(l);
    lemma_tag_tables_disjoint(l.take(first_colon(l)));
}

} // verus!
