use karet_seam::id::SeamId;
use karet_seam::id::SeamInterner;
use karet_seam::id::SeamPath;
use karet_seam::id::SeamPathError;
use karet_seam::id::SeamSegment;
use karet_seam::text::is_whitespace;

fn path(text: &str) -> SeamPath {
    text.parse().unwrap_or_default()
}

#[test]
fn round_trips_a_plain_path() {
    let text = "karet-core::provider::SymbolProvider";
    assert_eq!(path(text).to_text(), text);
    assert_eq!(path(text).len(), 3);
}

#[test]
fn separators_inside_a_braced_segment_do_not_split_it() {
    let text = "karet-core::model::{impl core::fmt::Display for Symbol}";
    let parsed = path(text);
    assert_eq!(parsed.len(), 3);
    assert_eq!(parsed.leaf(), Some("{impl core::fmt::Display for Symbol}"));
    assert_eq!(parsed.to_text(), text);
}

#[test]
fn round_trips_an_ordinal_suffix() {
    let text = "karet-core::model::{impl Widget}#2::render";
    let parsed = path(text);
    assert_eq!(parsed.segments()[2].ordinal, 2);
    assert_eq!(parsed.segments()[2].name, "{impl Widget}");
    assert_eq!(parsed.to_text(), text);
}

#[test]
fn a_hash_inside_braces_is_not_an_ordinal() {
    let parsed = path("pkg::{impl Trait for Raw#Type}");
    assert_eq!(parsed.segments()[1].ordinal, 0);
    assert_eq!(parsed.segments()[1].name, "{impl Trait for Raw#Type}");
}

#[test]
fn package_and_leaf_read_from_the_ends() {
    let parsed = path("pkg::a::b::c");
    assert_eq!(parsed.package(), Some("pkg"));
    assert_eq!(parsed.leaf(), Some("c"));
}

#[test]
fn parent_climbs_one_level_and_stops_at_the_root() {
    let parsed = path("pkg::a::b");
    let up = parsed.parent().unwrap_or_default();
    assert_eq!(up.to_text(), "pkg::a");
    let root = path("pkg");
    assert_eq!(root.parent(), None);
}

#[test]
fn child_appends_a_segment() {
    let parsed = path("pkg::a").child(SeamSegment::new("b".to_owned()));
    assert_eq!(parsed.to_text(), "pkg::a::b");
}

#[test]
fn containment_is_prefix_matching_on_whole_segments() {
    let root = path("pkg::model");
    assert!(path("pkg::model").is_under(&root));
    assert!(path("pkg::model::Symbol").is_under(&root));
    assert!(!path("pkg::modeling").is_under(&root));
    assert!(!path("pkg").is_under(&root));
}

#[test]
fn anonymous_segments_are_recognized() {
    assert!(SeamSegment::new("{impl A for B}".to_owned()).is_anonymous());
    assert!(!SeamSegment::new("Symbol".to_owned()).is_anonymous());
}

#[test]
fn rejects_malformed_paths() {
    assert_eq!("".parse::<SeamPath>(), Err(SeamPathError::Empty));
    assert_eq!("   ".parse::<SeamPath>(), Err(SeamPathError::Empty));
    assert_eq!("pkg::::a".parse::<SeamPath>(), Err(SeamPathError::EmptySegment(1)));
    assert_eq!(
        "pkg::{impl A".parse::<SeamPath>(),
        Err(SeamPathError::UnbalancedBrace(1))
    );
    assert!(matches!(
        "pkg::a#0".parse::<SeamPath>(),
        Err(SeamPathError::InvalidOrdinal { .. })
    ));
    assert!(matches!(
        "pkg::a#x".parse::<SeamPath>(),
        Err(SeamPathError::InvalidOrdinal { .. })
    ));
}

#[test]
fn interning_is_stable_and_reversible() {
    let mut interner = SeamInterner::new();
    assert!(interner.is_empty());
    let a = interner.intern(path("pkg::a"));
    let b = interner.intern(path("pkg::b"));
    assert_eq!(interner.intern(path("pkg::a")), a);
    assert_ne!(a, b);
    assert_eq!(interner.len(), 2);
    assert_eq!(interner.path(a).map(|p| p.to_text()).as_deref(), Some("pkg::a"));
    assert_eq!(interner.lookup(&path("pkg::b")), Some(b));
    assert_eq!(interner.lookup(&path("pkg::missing")), None);
    assert_eq!(interner.path(SeamId(99)), None);
}

#[test]
fn a_path_error_says_where_it_went_wrong() {
    assert_eq!(SeamPathError::EmptySegment(1).describe(), "empty path segment at position 1");
}

#[test]
fn white_space_agrees_with_the_standard_library_on_every_char() {
    let mut n: u32 = 0;
    while n <= 0x10FFFF {
        if let Some(c) = char::from_u32(n) {
            assert_eq!(is_whitespace(c), c.is_whitespace(), "U+{:04X}", n);
        }
        n += 1;
    }
}

#[test]
fn a_parsed_path_reads_back_the_same_even_when_written_differently() {
    for text in ["pkg::a:b", "pkg::item#01::x", "pkg:::odd", "pkg::{a::b}#+3", "pkg:: spaced ::y"] {
        let parsed: SeamPath = text.parse().expect("parses");
        let again: SeamPath = parsed.to_text().parse().expect("reparses");
        assert_eq!(again, parsed, "{text}");
    }
}
