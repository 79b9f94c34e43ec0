use log_sanitizer::classify::{apply_strategy, classify, Strategy};
use log_sanitizer::condense::condense_runtimes_log;
use log_sanitizer::game::censor_game_log;
use log_sanitizer::ip_scrub::filter_ips;
use log_sanitizer::runtimes::process_runtimes_log;

#[test]
fn admin_help_line_keeps_tag_and_loses_remainder() {
    let out = censor_game_log("ADMIN-HELP: player A says help me");
    assert_eq!(out, "ADMIN-HELP: -censored (ahelp/notes/etc)-");
}

#[test]
fn unrecognized_tag_becomes_generic_marker() {
    let out = censor_game_log("XYZZY foo bar");
    assert_eq!(out, "-censored (no category)-");
    assert_ne!(out, "-censored (ahelp/notes/etc)-");
}

#[test]
fn public_line_passes_through_unchanged() {
    let out = censor_game_log("SAY: hello there");
    assert_eq!(out, "SAY: hello there");
}

#[test]
fn unrecognized_tag_with_colon_becomes_generic_marker() {
    let out = censor_game_log("SECRETCHANNEL: hidden things");
    assert_eq!(out, "-censored (no category)-");
}

#[test]
fn censor_preserves_line_count() {
    let raw = "SAY: one\nADMIN: shh\nXYZZY\nOOC: two";
    let out = censor_game_log(raw);
    assert_eq!(out.lines().count(), raw.lines().count());
    assert_eq!(
        out,
        "SAY: one\nADMIN: -censored (ahelp/notes/etc)-\n-censored (no category)-\nOOC: two"
    );
}

#[test]
fn scrub_replaces_verbatim_string_lines_whole() {
    let out = process_runtimes_log("before\nproc: Cannot read \"secret stuff\"\nafter");
    assert_eq!(out, "before\n-censored (string output)\nafter");
}

#[test]
fn scrub_preserves_line_count() {
    let raw = "a\nCannot read \"x\"\nb\n";
    let out = process_runtimes_log(raw);
    assert_eq!(out.lines().count(), raw.lines().count());
}

#[test]
fn scrub_is_idempotent() {
    let raw = "one\ntwo Cannot read \"p\" three\nfour";
    let once = process_runtimes_log(raw);
    let twice = process_runtimes_log(&once);
    assert_eq!(once, twice);
}

#[test]
fn ip_scrubber_replaces_dotted_quads() {
    assert_eq!(filter_ips("user at 1.2.3.4 joined"), "user at [censored-ip] joined");
    assert_eq!(filter_ips("12.34.56.789 spoke"), "[censored-ip] spoke");
    assert_eq!(filter_ips("1234.5.6.7"), "1[censored-ip]");
}

#[test]
fn ip_scrubber_leaves_other_text_alone() {
    assert_eq!(filter_ips("version 1.2.3 released at 10:30"), "version 1.2.3 released at 10:30");
    assert_eq!(filter_ips(""), "");
}

#[test]
fn ip_scrubber_is_idempotent() {
    let raw = "a 1.2.3.4 b 255.255.255.255 c";
    let once = filter_ips(raw);
    let twice = filter_ips(&once);
    assert_eq!(once, twice);
    assert_eq!(once, "a [censored-ip] b [censored-ip] c");
}

#[test]
fn game_strategy_scrubs_identifiers_before_censoring() {
    let out = apply_strategy(Strategy::CensorGameLog, "SAY: my address is 10.0.0.1 ok");
    assert_eq!(out, "SAY: my address is [censored-ip] ok");
}

#[test]
fn classify_transformed_kinds() {
    let game = classify("game.log").unwrap();
    assert_eq!(game.output_name, "game.txt");
    assert_eq!(game.strategy, Strategy::CensorGameLog);

    let runtime = classify("runtime.log").unwrap();
    assert_eq!(runtime.output_name, "runtime.txt");
    assert_eq!(runtime.strategy, Strategy::ScrubRuntimeLog);
}

#[test]
fn classify_renames_plain_text_kinds() {
    let c = classify("attack.log").unwrap();
    assert_eq!(c.output_name, "attack.txt");
    assert_eq!(c.strategy, Strategy::PassThrough);
}

#[test]
fn classify_keeps_structured_kind_names() {
    let c = classify("atmos.html").unwrap();
    assert_eq!(c.output_name, "atmos.html");
    assert_eq!(c.strategy, Strategy::PassThrough);

    let c = classify("attack.log.json").unwrap();
    assert_eq!(c.output_name, "attack.log.json");
}

#[test]
fn classify_passes_profiling_dumps_through_unrenamed() {
    let c = classify("perf-12345.json").unwrap();
    assert_eq!(c.output_name, "perf-12345.json");
    assert_eq!(c.strategy, Strategy::PassThrough);
}

#[test]
fn classify_rejects_unknown_filenames() {
    assert!(classify("unknown.log").is_none());
    assert!(classify("secrets.txt").is_none());
    assert!(classify("").is_none());
}

#[test]
fn pass_through_strategy_returns_content_unchanged() {
    let out = apply_strategy(Strategy::PassThrough, "raw 1.2.3.4 content");
    assert_eq!(out, "raw 1.2.3.4 content");
}

#[test]
fn condense_groups_entries_differing_only_by_instance_id() {
    let raw = "runtime error: cannot cast null (instance 17)\n - proc: /datum/foo\nruntime error: cannot cast null (instance 42)\n - proc: /datum/foo\nruntime error: cannot cast null (instance 99)\n - proc: /datum/foo";
    let (text, groups) = condense_runtimes_log(raw);
    assert_eq!(groups.len(), 1);
    assert_eq!(groups[0].count, 3);
    assert_eq!(groups[0].signature, "runtime error: cannot cast null (instance #)");
    assert_eq!(groups[0].header, "runtime error: cannot cast null (instance 17)");
    assert_eq!(text, "3x runtime error: cannot cast null (instance 17)\n - proc: /datum/foo");
}

#[test]
fn condense_keeps_first_occurrence_order() {
    let raw = "fault alpha 1\nfault beta 2\nfault alpha 3";
    let (text, groups) = condense_runtimes_log(raw);
    assert_eq!(groups.len(), 2);
    assert_eq!(groups[0].signature, "fault alpha #");
    assert_eq!(groups[0].count, 2);
    assert_eq!(groups[1].signature, "fault beta #");
    assert_eq!(groups[1].count, 1);
    assert_eq!(text, "2x fault alpha 1\n1x fault beta 2");
}

#[test]
fn condense_conserves_entry_count() {
    let raw = "a one\nb two\na three\nc four\nb five";
    let (_, groups) = condense_runtimes_log(raw);
    let total: usize = groups.iter().map(|g| g.count).sum();
    assert_eq!(total, 5);
}

#[test]
fn condense_is_deterministic() {
    let raw = "fault q 9\n with trace 3\nfault r 2\nfault q 12";
    let first = condense_runtimes_log(raw);
    let second = condense_runtimes_log(raw);
    assert_eq!(first.0, second.0);
    assert_eq!(first.1.len(), second.1.len());
    for (a, b) in first.1.iter().zip(second.1.iter()) {
        assert_eq!(a.signature, b.signature);
        assert_eq!(a.count, b.count);
        assert_eq!(a.header, b.header);
        assert_eq!(a.body, b.body);
    }
}

#[test]
fn condense_scrubs_before_grouping() {
    let raw = "oops Cannot read \"player secret\"\noops Cannot read \"other secret\"";
    let (text, groups) = condense_runtimes_log(raw);
    assert_eq!(groups.len(), 1);
    assert_eq!(groups[0].count, 2);
    assert!(!text.contains("secret"));
    assert_eq!(text, "2x -censored (string output)");
}

#[test]
fn condense_of_empty_log_is_empty() {
    let (text, groups) = condense_runtimes_log("");
    assert_eq!(text, "");
    assert_eq!(groups.len(), 0);
}

#[test]
fn censor_of_empty_text_is_empty() {
    assert_eq!(censor_game_log(""), "");
}

#[test]
fn censor_keeps_blank_lines_blank() {
    assert_eq!(censor_game_log("SAY: a\n\nSAY: b"), "SAY: a\n\nSAY: b");
}

#[test]
fn censor_terminates_the_last_line_like_a_reader() {
    assert_eq!(censor_game_log("SAY: x\n"), "SAY: x");
    assert_eq!(
        censor_game_log("SAY: x\nXYZZY\n"),
        "SAY: x\n-censored (no category)-"
    );
    assert_eq!(
        censor_game_log("SAY: x\n").lines().count(),
        "SAY: x\n".lines().count()
    );
}

#[test]
fn scrub_normalizes_line_endings() {
    assert_eq!(process_runtimes_log("a\r\nb"), "a\nb");
    assert_eq!(process_runtimes_log("a\nb\n"), "a\nb");
    assert_eq!(process_runtimes_log("\n"), "");
}

#[test]
fn scrub_of_empty_text_is_empty() {
    assert_eq!(process_runtimes_log(""), "");
}

#[test]
fn each_private_tag_is_reduced() {
    assert_eq!(
        censor_game_log("ADMIN: secret order"),
        "ADMIN: -censored (ahelp/notes/etc)-"
    );
    assert_eq!(
        censor_game_log("ADMIN-PM: from A to B"),
        "ADMIN-PM: -censored (ahelp/notes/etc)-"
    );
}

#[test]
fn classify_does_not_guess_near_misses() {
    assert!(classify("runtime.log.json").is_none());
    assert!(classify("game.txt").is_none());
    assert!(classify("perf").is_none());
}
