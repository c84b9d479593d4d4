use karet_seam::config::predicate::parse;
use karet_seam::config::predicate::CfgEnv;
use karet_seam::config::predicate::CfgError;
use karet_seam::config::predicate::CfgPredicate;
use karet_seam::config::predicate::Truth;
use karet_seam::config::Configuration;
use karet_seam::config::Host;
use karet_seam::config::UNCONFIGURED;

fn host() -> Host {
    Host {
        os: "linux".to_owned(),
        arch: "x86_64".to_owned(),
        unix: true,
        windows: false,
    }
}

fn flag(name: &str) -> CfgPredicate {
    CfgPredicate::Flag(name.to_owned())
}

fn kv(key: &str, value: &str) -> CfgPredicate {
    CfgPredicate::KeyValue {
        key: key.to_owned(),
        value: value.to_owned(),
    }
}

#[test]
fn an_unconfigured_view_names_itself_honestly() {
    let configuration = Configuration::unconfigured(&host());
    assert!(configuration.name.starts_with(UNCONFIGURED));
    assert!(!configuration.variation_is_complete());
}

#[test]
fn a_named_configuration_carries_the_host_triple() {
    let configuration = Configuration::named("default", &host(), vec!["view".to_owned()]);
    assert!(configuration.name.starts_with("default @ "));
    assert!(configuration.variation_is_complete());
}

#[test]
fn a_named_configuration_is_named_for_its_host_exactly() {
    let configuration = Configuration::named("default", &host(), vec![]);
    assert_eq!(configuration.name, "default @ x86_64-linux");
}

#[test]
fn parses_a_bare_flag() -> Result<(), CfgError> {
    assert_eq!(parse("unix")?, flag("unix"));
    Ok(())
}

#[test]
fn parses_a_key_value_pair() -> Result<(), CfgError> {
    assert_eq!(parse("feature = \"view\"")?, kv("feature", "view"));
    assert_eq!(parse("target_os=\"linux\"")?, kv("target_os", "linux"));
    Ok(())
}

#[test]
fn parses_nested_combinators() -> Result<(), CfgError> {
    let parsed = parse("all(unix, not(test), any(feature = \"a\", feature = \"b\"))")?;
    assert_eq!(
        parsed,
        CfgPredicate::All(vec![
            flag("unix"),
            CfgPredicate::Not(Box::new(flag("test"))),
            CfgPredicate::Any(vec![kv("feature", "a"), kv("feature", "b")]),
        ])
    );
    Ok(())
}

#[test]
fn rejects_malformed_predicates() {
    assert_eq!(parse(""), Err(CfgError::Empty));
    assert_eq!(parse("   "), Err(CfgError::Empty));
    assert_eq!(parse("all(unix"), Err(CfgError::Unclosed));
    assert!(matches!(parse("unix junk"), Err(CfgError::Trailing(_))));
    assert!(matches!(parse("feature = view"), Err(CfgError::Malformed(_))));
    assert!(matches!(parse("bogus(unix)"), Err(CfgError::Malformed(_))));
}

#[test]
fn kleene_conjunction_lets_one_false_settle_it() {
    assert_eq!(Truth::all(&[Truth::True, Truth::True]), Truth::True);
    assert_eq!(Truth::all(&[Truth::True, Truth::Unknown]), Truth::Unknown);
    assert_eq!(Truth::all(&[Truth::Unknown, Truth::False]), Truth::False);
    assert_eq!(Truth::all(&[]), Truth::True);
}

#[test]
fn kleene_disjunction_lets_one_true_settle_it() {
    assert_eq!(Truth::any(&[Truth::False, Truth::True]), Truth::True);
    assert_eq!(Truth::any(&[Truth::False, Truth::Unknown]), Truth::Unknown);
    assert_eq!(Truth::any(&[Truth::Unknown, Truth::True]), Truth::True);
    assert_eq!(Truth::any(&[]), Truth::False);
}

#[test]
fn negating_unknown_stays_unknown() {
    assert_eq!(Truth::Unknown.negate(), Truth::Unknown);
    assert_eq!(Truth::True.negate(), Truth::False);
    assert_eq!(Truth::False.negate(), Truth::True);
}

#[test]
fn a_feature_gate_is_decided_because_the_manifest_enumerates_features() -> Result<(), CfgError> {
    let env = CfgEnv::new().with_features(vec!["view".to_owned()]);
    assert_eq!(env.eval(&parse("feature = \"view\"")?), Truth::True);
    assert_eq!(env.eval(&parse("feature = \"other\"")?), Truth::False);
    Ok(())
}

#[test]
fn an_unenumerated_feature_set_leaves_gates_undecided() -> Result<(), CfgError> {
    let env = CfgEnv::new();
    assert_eq!(env.eval(&parse("feature = \"view\"")?), Truth::Unknown);
    Ok(())
}

#[test]
fn a_known_key_decides_both_ways() -> Result<(), CfgError> {
    let env = CfgEnv::new().with_key("target_os", "linux");
    assert_eq!(env.eval(&parse("target_os = \"linux\"")?), Truth::True);
    assert_eq!(env.eval(&parse("target_os = \"redox\"")?), Truth::False);
    Ok(())
}

#[test]
fn an_unknown_key_is_never_guessed_to_be_false() -> Result<(), CfgError> {
    let env = CfgEnv::new().with_key("target_os", "linux");
    assert_eq!(env.eval(&parse("some_vendor_key")?), Truth::Unknown);
    assert_eq!(env.eval(&parse("nonstandard = \"x\"")?), Truth::Unknown);
    Ok(())
}

#[test]
fn flags_are_decided_only_once_declared_enumerated() -> Result<(), CfgError> {
    let env = CfgEnv::new()
        .with_flags(vec!["unix".to_owned()])
        .with_known_flags(vec!["unix".to_owned(), "windows".to_owned(), "test".to_owned()]);
    assert_eq!(env.eval(&parse("unix")?), Truth::True);
    assert_eq!(env.eval(&parse("windows")?), Truth::False);
    assert_eq!(env.eval(&parse("test")?), Truth::False);
    Ok(())
}

#[test]
fn unknown_propagates_through_a_nested_predicate() -> Result<(), CfgError> {
    let env = CfgEnv::new()
        .with_features(vec!["view".to_owned()])
        .with_flags(vec!["unix".to_owned()])
        .with_known_flags(vec!["unix".to_owned()]);
    assert_eq!(env.eval(&parse("all(unix, vendor_thing)")?), Truth::Unknown);
    assert_eq!(
        env.eval(&parse("all(unix, vendor_thing, feature = \"absent\")")?),
        Truth::False
    );
    Ok(())
}

#[test]
fn knowing_nothing_decides_only_what_every_environment_decides() -> Result<(), CfgError> {
    let empty = CfgEnv::new();
    let known = CfgEnv::new().with_flags(vec!["unix".to_owned()]).with_key("target_os", "linux");
    let settled = parse("all(any(), unix)")?;
    assert_eq!(empty.eval(&settled), Truth::False);
    assert_eq!(known.eval(&settled), Truth::False);
    let open = parse("any(any(), unix)")?;
    assert_eq!(empty.eval(&open), Truth::Unknown);
    assert_eq!(known.eval(&open), Truth::True);
    let held = parse("not(any())")?;
    assert_eq!(empty.eval(&held), Truth::True);
    assert_eq!(known.eval(&held), Truth::True);
    Ok(())
}
