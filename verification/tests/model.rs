use karet_seam::model::ConfigMembership;
use karet_seam::model::Lens;
use karet_seam::model::NodeKind;
use karet_seam::model::Visibility;
use karet_seam::model::LENSES;

#[test]
fn lens_names_round_trip_and_index_matches_the_table() {
    for lens in LENSES {
        assert_eq!(Lens::from_name(lens.name()), Some(lens));
        assert_eq!(LENSES[lens.index()], lens);
        assert!(!lens.question().is_empty());
    }
    assert_eq!(Lens::from_name("nope"), None);
    assert_eq!(Lens::from_name("API"), None, "names are case-sensitive");
}

#[test]
fn the_lens_set_is_closed_at_five() {
    assert_eq!(LENSES.len(), 5);
}

#[test]
fn node_kind_names_round_trip() {
    for kind in NodeKind::all() {
        assert_eq!(NodeKind::from_name(kind.name()), Some(kind));
    }
    assert_eq!(NodeKind::from_name("klass"), None);
}

#[test]
fn visibility_orders_from_least_to_most_reachable() {
    assert!(Visibility::Private < Visibility::Crate);
    assert!(Visibility::Crate < Visibility::Public);
    assert!(Visibility::Super < Visibility::Crate);
    for vis in Visibility::all() {
        assert_eq!(Visibility::from_name(vis.name()), Some(vis));
    }
}

#[test]
fn reach_compares_by_rank() {
    assert!(Visibility::Public.at_least(Visibility::Crate));
    assert!(!Visibility::Private.at_least(Visibility::Super));
    assert_eq!(Visibility::Restricted.rank(), 2);
}

#[test]
fn membership_defaults_to_active_and_names_all_three_states() {
    assert_eq!(ConfigMembership::default(), ConfigMembership::Active);
    assert_eq!(ConfigMembership::Active.name(), "active");
    assert_eq!(ConfigMembership::Inactive.name(), "inactive");
    assert_eq!(ConfigMembership::Indeterminate.name(), "indeterminate");
}
