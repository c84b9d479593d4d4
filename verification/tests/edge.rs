use karet_seam::edge::EdgeKind;
use karet_seam::edge::Endpoint;
use karet_seam::id::SeamId;

#[test]
fn edge_kind_names_round_trip() {
    for kind in EdgeKind::all() {
        assert_eq!(EdgeKind::from_name(kind.name()), Some(kind));
    }
    assert_eq!(EdgeKind::from_name("calls"), None);
}

#[test]
fn endpoints_report_their_three_states() {
    let resolved = Endpoint::Resolved(SeamId(3));
    assert_eq!(resolved.state(), "resolved");
    assert_eq!(resolved.resolved(), Some(SeamId(3)));
    assert_eq!(resolved.display_hint(), None);

    let external = Endpoint::External {
        display: "std::fmt::Display".to_owned(),
    };
    assert_eq!(external.state(), "external");
    assert_eq!(external.resolved(), None);
    assert_eq!(external.display_hint(), Some("std::fmt::Display"));

    let unresolved = Endpoint::Unresolved {
        hint: Some("Widget".to_owned()),
        resolvable: true,
    };
    assert_eq!(unresolved.state(), "unresolved");
    assert_eq!(unresolved.resolved(), None);
    assert_eq!(unresolved.display_hint(), Some("Widget"));
}
