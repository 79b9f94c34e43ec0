use log_sanitizer::guard::{
    round_ref_of, LivenessReport, PathDecision, RoundGuard, RoundRef,
};
use log_sanitizer::listing::{
    build_traversal_items, headers, link_segments, traversal_page, RawEntry, TraversalItem,
};

fn strings(parts: &[&str]) -> Vec<String> {
    parts.iter().map(|s| s.to_string()).collect()
}

#[test]
fn round_ref_reads_the_round_directory() {
    let components = strings(&["2023-01", "round-197406", "game.log"]);
    assert_eq!(round_ref_of(&components), RoundRef::Round(197406));
}

#[test]
fn round_ref_of_roundless_path_is_no_round() {
    let components = strings(&["2023-01", "raw-logs"]);
    assert_eq!(round_ref_of(&components), RoundRef::NoRound);
    assert_eq!(round_ref_of(&strings(&[])), RoundRef::NoRound);
}

#[test]
fn unreadable_round_id_is_malformed() {
    assert_eq!(round_ref_of(&strings(&["round-19x4"])), RoundRef::Malformed);
    assert_eq!(round_ref_of(&strings(&["round-"])), RoundRef::NoRound);
    assert_eq!(
        round_ref_of(&strings(&["round-99999999999999999999999"])),
        RoundRef::Malformed
    );
}

#[test]
fn unreachable_liveness_source_answers_ongoing() {
    let mut guard = RoundGuard::new(60);
    let components = strings(&["2023-01", "round-7", "game.log"]);
    let decision = guard.path_decision(&components, 100);
    assert_eq!(decision, PathDecision::NeedsRefresh(7));

    guard.record(7, LivenessReport::Unavailable, 100);
    assert!(guard.answer(7));
}

#[test]
fn unknown_round_is_treated_as_ongoing() {
    let guard = RoundGuard::new(60);
    assert!(guard.answer(12345));
    assert_eq!(guard.query(12345, 0), None);
}

#[test]
fn malformed_round_id_is_withheld_without_a_lookup() {
    let guard = RoundGuard::new(60);
    let decision = guard.path_decision(&strings(&["round-abc"]), 5);
    assert_eq!(decision, PathDecision::Decided(true));
}

#[test]
fn roundless_path_is_never_withheld() {
    let guard = RoundGuard::new(60);
    let decision = guard.path_decision(&strings(&["2023-01"]), 5);
    assert_eq!(decision, PathDecision::Decided(false));
}

#[test]
fn finished_round_never_reverts() {
    let mut guard = RoundGuard::new(60);
    guard.record(9, LivenessReport::Ended, 100);
    assert!(!guard.answer(9));

    guard.record(9, LivenessReport::Active, 200);
    assert!(!guard.answer(9));

    guard.record(9, LivenessReport::Unavailable, 300);
    assert!(!guard.answer(9));

    assert_eq!(guard.query(9, 10_000), Some(false));
}

#[test]
fn ongoing_record_goes_stale_after_the_bound() {
    let mut guard = RoundGuard::new(60);
    guard.record(4, LivenessReport::Active, 100);
    assert_eq!(guard.query(4, 150), Some(true));
    assert_eq!(guard.query(4, 161), None);
    assert!(guard.answer(4));
}

#[test]
fn listing_hides_ongoing_and_unpublishable_entries() {
    let raws = vec![
        RawEntry { name: "secret.txt".to_string(), is_dir: false, is_ongoing: false },
        RawEntry { name: "round-5".to_string(), is_dir: true, is_ongoing: true },
        RawEntry { name: "game.log".to_string(), is_dir: false, is_ongoing: false },
        RawEntry { name: "2023-02".to_string(), is_dir: true, is_ongoing: false },
    ];
    let items = build_traversal_items(&raws, "2023-01/round-4");
    let names: Vec<&str> = items.iter().map(|i| i.name.as_str()).collect();
    assert_eq!(names, vec!["2023-02", "game.log"]);
    assert_eq!(items[0].path, "/2023-01/round-4/2023-02");
    assert!(items[0].is_dir);
    assert_eq!(items[1].path, "/2023-01/round-4/game.log");
}

#[test]
fn listing_advertises_condensed_runtime_links() {
    let raws = vec![RawEntry {
        name: "runtime.log".to_string(),
        is_dir: false,
        is_ongoing: false,
    }];
    let items = build_traversal_items(&raws, "d/round-1");
    let names: Vec<&str> = items.iter().map(|i| i.name.as_str()).collect();
    assert_eq!(
        names,
        vec!["runtime.condensed.json", "runtime.condensed.txt", "runtime.log"]
    );
    assert_eq!(items[0].path, "/d/round-1/runtime.condensed.json");
    assert!(!items[0].is_dir);
}

#[test]
fn listing_sorts_directories_first_then_names() {
    let raws = vec![
        RawEntry { name: "game.log".to_string(), is_dir: false, is_ongoing: false },
        RawEntry { name: "b-dir".to_string(), is_dir: true, is_ongoing: false },
        RawEntry { name: "attack.log".to_string(), is_dir: false, is_ongoing: false },
        RawEntry { name: "a-dir".to_string(), is_dir: true, is_ongoing: false },
    ];
    let items = build_traversal_items(&raws, "");
    let names: Vec<&str> = items.iter().map(|i| i.name.as_str()).collect();
    assert_eq!(names, vec!["a-dir", "b-dir", "attack.log", "game.log"]);
    assert_eq!(items[0].path, "/a-dir");
}

#[test]
fn headers_carry_cache_policy_and_content_type() {
    let h = headers("text/plain");
    assert_eq!(h[0], ("cache-control", "public, max-age=31536000"));
    assert_eq!(h[1], ("content-type", "text/plain"));

    let j = headers("application/json");
    assert_eq!(j[1].1, "application/json");
}

#[test]
fn link_segments_builds_breadcrumb_anchors() {
    let out = link_segments(&strings(&["2023-01", "round-4"]));
    assert_eq!(
        out,
        "<a href='/2023-01'>2023-01</a>/<a href='/2023-01/round-4'>round-4</a>"
    );
    assert_eq!(link_segments(&strings(&[])), "");
}

#[test]
fn traversal_page_wraps_items_and_breadcrumbs() {
    let items = vec![TraversalItem {
        name: "game.log".to_string(),
        path: "/d/game.log".to_string(),
        is_dir: false,
    }];
    let page = traversal_page(&items, &strings(&["d"]));
    assert_eq!(
        page,
        "<html><head><title>d</title></head><body><p><a href='/d'>d</a></p><hr /><ul><li><a href='/d/game.log'>game.log</a></li></ul></body></html>"
    );
}

#[test]
fn traversal_page_marks_directories() {
    let items = vec![TraversalItem {
        name: "sub".to_string(),
        path: "/sub".to_string(),
        is_dir: true,
    }];
    let page = traversal_page(&items, &strings(&[]));
    assert!(page.contains("<li><a href='/sub'>sub/</a></li>"));
}
