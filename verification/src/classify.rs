//! Sanitization dispatcher: an ordered rule table from filename to output
//! name and strategy.
//!
//! Precedence: the two transformed kinds first; then the plain-text kinds,
//! renamed to a public extension; then the structured kinds, kept under
//! their exact name; then profiling dumps with an embedded run id, matched
//! by prefix and passed through unrenamed. Any other filename is not
//! publishable — omission is the safe default.
use vstd::prelude::*;

use crate::text::prefix_eq_str;
use crate::text::str_to_chars;
use crate::text::chars_to_string;

verus! {

/// How a publishable log kind is transformed.
#[derive(Clone, Copy, PartialEq, Eq, Structural, Debug)]
pub enum Strategy {
    /// Category-tag censoring after identifier scrubbing.
    CensorGameLog,
    /// Verbatim-string scrubbing after identifier scrubbing.
    ScrubRuntimeLog,
    /// Published as it is.
    PassThrough,
}

/// The outcome of classifying a publishable filename.
pub struct Classification {
    /// The name the artifact is published under.
    pub output_name: String,
    /// The transform its content goes through.
    pub strategy: Strategy,
}

/// The plain-text kinds, published under a `.txt` extension.
pub open spec fn renamed_kinds() -> Seq<Seq<char>> {
    seq![
        "asset.log"@,
        "attack.log"@,
        "cloning.log"@,
        "dynamic.log"@,
        "econ.log"@,
        "economy.log"@,
        "harddel.log"@,
        "harddels.log"@,
        "initialize.log"@,
        "job_debug.log"@,
        "manifest.log"@,
        "map_errors.log"@,
        "mecha.log"@,
        "mob_tags.log"@,
        "overlay.log"@,
        "paper.log"@,
        "pda.log"@,
        "qdel.log"@,
        "shuttle.log"@,
        "signal.log"@,
        "signals.log"@,
        "silicon.log"@,
        "silo.log"@,
        "speech_indicators.log"@,
        "telecomms.log"@,
        "tool.log"@,
        "tools.log"@,
        "uplink.log"@,
        "virus.log"@,
    ]
}

/// The structured kinds, published under their exact original name so that
/// public references stay stable.
pub open spec fn kept_kinds() -> Seq<Seq<char>> {
    seq![
        "asset.log.json"@,
        "attack.log.json"@,
        "atmos.html"@,
        "botany.html"@,
        "cargo.html"@,
        "circuit.html"@,
        "cloning.log.json"@,
        "crafting.html"@,
        "deaths.html"@,
        "dynamic.json"@,
        "dynamic.log.json"@,
        "econ.log.json"@,
        "economy.log.json"@,
        "engine.html"@,
        "experimentor.html"@,
        "gravity.html"@,
        "hallucinations.html"@,
        "harddel.log.json"@,
        "harddels.log.json"@,
        "hypertorus.html"@,
        "id_card_changes.html"@,
        "init_profiler.json"@,
        "init_times.json"@,
        "initialize.log.json"@,
        "job_debug.log.json"@,
        "kudzu.html"@,
        "manifest.log.json"@,
        "map_errors.log.json"@,
        "mecha.log.json"@,
        "mob_tags.log.json"@,
        "nanites.html"@,
        "newscaster.json"@,
        "overlay.log.json"@,
        "paper.log.json"@,
        "pda.log.json"@,
        "portals.html"@,
        "presents.html"@,
        "profiler.json"@,
        "qdel.log.json"@,
        "radiation.html"@,
        "records.html"@,
        "research.html"@,
        "round_end_data.html"@,
        "round_end_data.json"@,
        "sendmaps.json"@,
        "shuttle.log.json"@,
        "signal.log.json"@,
        "signals.log.json"@,
        "silicon.log.json"@,
        "silo.json"@,
        "silo.log.json"@,
        "singulo.html"@,
        "speech_indicators.log.json"@,
        "supermatter.html"@,
        "target_zone_switch.json"@,
        "telecomms.log.json"@,
        "telesci.html"@,
        "tool.log.json"@,
        "tools.log.json"@,
        "uplink.log.json"@,
        "virus.log.json"@,
        "wires.html"@,
    ]
}

/// A `.log` name with its extension replaced by `.txt` (cosmetic only).
pub open spec fn rename_to_txt(name: Seq<char>) -> Seq<char> {
    if name.len() >= 4 {
        name.take(name.len() - 4) + ".txt"@
    } else {
        name
    }
}

/// The rule table as one total function over filenames.
pub open spec fn spec_classify(name: Seq<char>) -> Option<(Seq<char>, Strategy)> {
    if name == "game.log"@ {
        Some(("game.txt"@, Strategy::CensorGameLog))
    } else if name == "runtime.log"@ {
        Some(("runtime.txt"@, Strategy::ScrubRuntimeLog))
    } else if renamed_kinds().contains(name) {
        Some((rename_to_txt(name), Strategy::PassThrough))
    } else if kept_kinds().contains(name) {
        Some((name, Strategy::PassThrough))
    } else if name.len() >= 5 && name.take(5) == "perf-"@ {
        Some((name, Strategy::PassThrough))
    } else {
        None
    }
}

fn is_renamed_kind(v: &Vec<char>) -> (b: bool)
    ensures
        b == renamed_kinds().contains(v@),
{
    let n = v.len();
    proof {
        assert(v@.take(n as int) =~= v@);
    }
    let b = prefix_eq_str(v, n, "asset.log")
        || prefix_eq_str(v, n, "attack.log")
        || prefix_eq_str(v, n, "cloning.log")
        || prefix_eq_str(v, n, "dynamic.log")
        || prefix_eq_str(v, n, "econ.log")
        || prefix_eq_str(v, n, "economy.log")
        || prefix_eq_str(v, n, "harddel.log")
        || prefix_eq_str(v, n, "harddels.log")
        || prefix_eq_str(v, n, "initialize.log")
        || prefix_eq_str(v, n, "job_debug.log")
        || prefix_eq_str(v, n, "manifest.log")
        || prefix_eq_str(v, n, "map_errors.log")
        || prefix_eq_str(v, n, "mecha.log")
        || prefix_eq_str(v, n, "mob_tags.log")
        || prefix_eq_str(v, n, "overlay.log")
        || prefix_eq_str(v, n, "paper.log")
        || prefix_eq_str(v, n, "pda.log")
        || prefix_eq_str(v, n, "qdel.log")
        || prefix_eq_str(v, n, "shuttle.log")
        || prefix_eq_str(v, n, "signal.log")
        || prefix_eq_str(v, n, "signals.log")
        || prefix_eq_str(v, n, "silicon.log")
        || prefix_eq_str(v, n, "silo.log")
        || prefix_eq_str(v, n, "speech_indicators.log")
        || prefix_eq_str(v, n, "telecomms.log")
        || prefix_eq_str(v, n, "tool.log")
        || prefix_eq_str(v, n, "tools.log")
        || prefix_eq_str(v, n, "uplink.log")
        || prefix_eq_str(v, n, "virus.log");
    proof {
        if b {
            assert(renamed_kinds().contains(v@));
        } else {
            if renamed_kinds().contains(v@) {
                let i = choose|i: int| 0 <= i < renamed_kinds().len() && renamed_kinds()[i] == v@;
                assert(false);
            }
        }
    }
    b
}

fn is_kept_kind(v: &Vec<char>) -> (b: bool)
    ensures
        b == kept_kinds().contains(v@),
{
    let n = v.len();
    proof {
        assert(v@.take(n as int) =~= v@);
    }
    let b = prefix_eq_str(v, n, "asset.log.json")
        || prefix_eq_str(v, n, "attack.log.json")
        || prefix_eq_str(v, n, "atmos.html")
        || prefix_eq_str(v, n, "botany.html")
        || prefix_eq_str(v, n, "cargo.html")
        || prefix_eq_str(v, n, "circuit.html")
        || prefix_eq_str(v, n, "cloning.log.json")
        || prefix_eq_str(v, n, "crafting.html")
        || prefix_eq_str(v, n, "deaths.html")
        || prefix_eq_str(v, n, "dynamic.json")
        || prefix_eq_str(v, n, "dynamic.log.json")
        || prefix_eq_str(v, n, "econ.log.json")
        || prefix_eq_str(v, n, "economy.log.json")
        || prefix_eq_str(v, n, "engine.html")
        || prefix_eq_str(v, n, "experimentor.html")
        || prefix_eq_str(v, n, "gravity.html")
        || prefix_eq_str(v, n, "hallucinations.html")
        || prefix_eq_str(v, n, "harddel.log.json")
        || prefix_eq_str(v, n, "harddels.log.json")
        || prefix_eq_str(v, n, "hypertorus.html")
        || prefix_eq_str(v, n, "id_card_changes.html")
        || prefix_eq_str(v, n, "init_profiler.json")
        || prefix_eq_str(v, n, "init_times.json")
        || prefix_eq_str(v, n, "initialize.log.json")
        || prefix_eq_str(v, n, "job_debug.log.json")
        || prefix_eq_str(v, n, "kudzu.html")
        || prefix_eq_str(v, n, "manifest.log.json")
        || prefix_eq_str(v, n, "map_errors.log.json")
        || prefix_eq_str(v, n, "mecha.log.json")
        || prefix_eq_str(v, n, "mob_tags.log.json")
        || prefix_eq_str(v, n, "nanites.html")
        || prefix_eq_str(v, n, "newscaster.json")
        || prefix_eq_str(v, n, "overlay.log.json")
        || prefix_eq_str(v, n, "paper.log.json")
        || prefix_eq_str(v, n, "pda.log.json")
        || prefix_eq_str(v, n, "portals.html")
        || prefix_eq_str(v, n, "presents.html")
        || prefix_eq_str(v, n, "profiler.json")
        || prefix_eq_str(v, n, "qdel.log.json")
        || prefix_eq_str(v, n, "radiation.html")
        || prefix_eq_str(v, n, "records.html")
        || prefix_eq_str(v, n, "research.html")
        || prefix_eq_str(v, n, "round_end_data.html")
        || prefix_eq_str(v, n, "round_end_data.json")
        || prefix_eq_str(v, n, "sendmaps.json")
        || prefix_eq_str(v, n, "shuttle.log.json")
        || prefix_eq_str(v, n, "signal.log.json")
        || prefix_eq_str(v, n, "signals.log.json")
        || prefix_eq_str(v, n, "silicon.log.json")
        || prefix_eq_str(v, n, "silo.json")
        || prefix_eq_str(v, n, "silo.log.json")
        || prefix_eq_str(v, n, "singulo.html")
        || prefix_eq_str(v, n, "speech_indicators.log.json")
        || prefix_eq_str(v, n, "supermatter.html")
        || prefix_eq_str(v, n, "target_zone_switch.json")
        || prefix_eq_str(v, n, "telecomms.log.json")
        || prefix_eq_str(v, n, "telesci.html")
        || prefix_eq_str(v, n, "tool.log.json")
        || prefix_eq_str(v, n, "tools.log.json")
        || prefix_eq_str(v, n, "uplink.log.json")
        || prefix_eq_str(v, n, "virus.log.json")
        || prefix_eq_str(v, n, "wires.html");
    proof {
        if b {
            assert(kept_kinds().contains(v@));
        } else {
            if kept_kinds().contains(v@) {
                let i = choose|i: int| 0 <= i < kept_kinds().len() && kept_kinds()[i] == v@;
                assert(false);
            }
        }
    }
    b
}

/// The filename with a `.log` extension replaced by `.txt`.
fn rename_to_txt_exec(v: &Vec<char>) -> (r: String)
    ensures
        r@ == rename_to_txt(v@),
{
    if v.len() < 4 {
        return chars_to_string(v);
    }
    let keep = v.len() - 4;
    let mut out: Vec<char> = Vec::new();
    let mut j: usize = 0;
    while j < keep
        invariant
            j <= keep <= v@.len(),
            out@ == v@.take(j as int),
        decreases keep - j,
    {
        out.push(v[j]);
        assert(out@ =~= v@.take(j as int + 1));
        j = j + 1;
    }
    let ext = str_to_chars(".txt");
    let mut k: usize = 0;
    while k < ext.len()
        invariant
            k <= ext@.len(),
            ext@ == ".txt"@,
            out@ == v@.take(keep as int) + ext@.take(k as int),
        decreases ext@.len() - k,
    {
        out.push(ext[k]);
        assert(out@ =~= v@.take(keep as int) + ext@.take(k as int + 1));
        k = k + 1;
    }
    proof {
        assert(out@ =~= v@.take(keep as int) + ".txt"@);
    }
    chars_to_string(&out)
}

/// Where a filename is published, under what name, and through which
/// strategy; `None` for everything unrecognized.
pub fn classify(filename: &str) -> (r: Option<Classification>)
    ensures
        match r {
            Some(c) => spec_classify(filename@) == Some((c.output_name@, c.strategy)),
            None => spec_classify(filename@) is None,
        },
{
    let v = str_to_chars(filename);
    let n = v.len();
    proof {
        assert(v@.take(n as int) =~= v@);
    }
    if prefix_eq_str(&v, n, "game.log") {
        return Some(Classification {
            output_name: chars_to_string(&str_to_chars("game.txt")),
            strategy: Strategy::CensorGameLog,
        });
    }
    if prefix_eq_str(&v, n, "runtime.log") {
        return Some(Classification {
            output_name: chars_to_string(&str_to_chars("runtime.txt")),
            strategy: Strategy::ScrubRuntimeLog,
        });
    }
    if is_renamed_kind(&v) {
        return Some(Classification {
            output_name: rename_to_txt_exec(&v),
            strategy: Strategy::PassThrough,
        });
    }
    if is_kept_kind(&v) {
        return Some(Classification {
            output_name: chars_to_string(&v),
            strategy: Strategy::PassThrough,
        });
    }
    if n >= 5 && prefix_eq_str(&v, 5, "perf-") {
        return Some(Classification {
            output_name: chars_to_string(&v),
            strategy: Strategy::PassThrough,
        });
    }
    None
}

/// The content transform of a strategy: what the published text is, as a
/// function of the raw text.
pub open spec fn spec_apply_strategy(strategy: Strategy, s: Seq<char>) -> Seq<char> {
    match strategy {
        Strategy::CensorGameLog => crate::game::spec_censor(crate::ip_scrub::spec_scrub_ips(s)),
        Strategy::ScrubRuntimeLog => crate::runtimes::spec_scrub(
            crate::ip_scrub::spec_scrub_ips(s),
        ),
        Strategy::PassThrough => s,
    }
}

/// Runs a strategy on raw content. The transformed kinds go through the
/// identifier scrubber first; pass-through content is published as it is.
pub fn apply_strategy(strategy: Strategy, contents: &str) -> (r: String)
    ensures
        r@ == spec_apply_strategy(strategy, contents@),
{
    match strategy {
        Strategy::CensorGameLog => {
            let filtered = crate::ip_scrub::filter_ips(contents);
            crate::game::censor_game_log(filtered.as_str())
        },
        Strategy::ScrubRuntimeLog => {
            let filtered = crate::ip_scrub::filter_ips(contents);
            crate::runtimes::process_runtimes_log(filtered.as_str())
        },
        Strategy::PassThrough => contents.to_owned(),
    }
}

} // verus!
