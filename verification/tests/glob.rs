use karet_seam::discover::glob;
use karet_seam::discover::PackageKind;

#[test]
fn a_literal_pattern_matches_only_itself() {
    assert!(glob::matches("xtask", "xtask"));
    assert!(!glob::matches("xtask", "xtasks"));
    assert!(!glob::matches("xtask", "xtas"));
}

#[test]
fn a_star_consumes_any_run_including_none() {
    assert!(glob::matches("*", "anything"));
    assert!(glob::matches("*", ""));
    assert!(glob::matches("karet-*", "karet-core"));
    assert!(glob::matches("karet-*", "karet-"));
    assert!(!glob::matches("karet-*", "blameline"));
}

#[test]
fn a_star_matches_in_the_middle_and_at_the_front() {
    assert!(glob::matches("*-core", "karet-core"));
    assert!(glob::matches("karet*core", "karet-core"));
    assert!(glob::matches("k*t*e", "karet-core"));
    assert!(!glob::matches("*-core", "karet-diff"));
}

#[test]
fn a_star_backtracks_rather_than_giving_up_on_its_first_guess() {
    assert!(glob::matches("a*b", "aaab"));
    assert!(glob::matches("*ab", "aaab"));
    assert!(!glob::matches("a*c", "aaab"));
}

#[test]
fn a_question_mark_matches_exactly_one_character() {
    assert!(glob::matches("?ore", "core"));
    assert!(!glob::matches("?ore", "ore"));
    assert!(!glob::matches("?ore", "score"));
}

#[test]
fn several_trailing_stars_still_match_the_end() {
    assert!(glob::matches("karet**", "karet-core"));
    assert!(glob::matches("**", "anything"));
}

#[test]
fn an_unsupported_class_matches_nothing_rather_than_something_wrong() {
    assert!(!glob::matches("karet-[abc]", "karet-a"));
}

#[test]
fn a_question_mark_counts_characters_not_bytes() {
    assert!(glob::matches("?x", "éx"));
    assert!(!glob::matches("??x", "éx"));
}

#[test]
fn an_ecosystems_extensions_and_index_names_match_its_conventions() {
    assert!(PackageKind::Node.extensions().contains(&"tsx"));
    assert_eq!(PackageKind::Swift.extensions(), ["swift"]);
    assert!(PackageKind::Gradle.extensions().contains(&"kt"));
    assert_eq!(PackageKind::Node.index_names(), ["index"]);
    assert!(PackageKind::Swift.index_names().is_empty());
    assert!(PackageKind::Cargo.extensions().is_empty());
    assert!(PackageKind::Python.extensions().is_empty());
}
