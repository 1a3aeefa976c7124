//! The baseline format: what each directive means, and the drift between a
//! baseline and a reading.

use governance::baseline::{drift, drift_present, parse};
use std::collections::BTreeMap;

#[test]
fn an_org_directive_is_scoped_to_the_organisation() {
    let b = parse("org actions.sha_pinning_required true\n").expect("parses");
    assert_eq!(
        b.org,
        [("actions.sha_pinning_required".to_owned(), "true".to_owned())]
    );
    assert!(
        b.settings.is_empty(),
        "an org setting is not a repo setting"
    );
}

/// Rulesets and security configurations are nested JSON that this format
/// cannot express. What it can do is assert they exist and are active, so
/// a deleted ruleset is a failure rather than a silence.
#[test]
fn a_present_directive_asserts_existence_without_owning_the_body() {
    let b = parse("present ruleset floor-no-destruction active\n").expect("parses");
    assert_eq!(b.present.len(), 1);
    assert_eq!(b.present[0].kind, "ruleset");
    assert_eq!(b.present[0].name, "floor-no-destruction");
    assert_eq!(b.present[0].state, "active");
}

#[test]
fn a_missing_expected_object_is_drift() {
    let b = parse("present ruleset ghost active\n").expect("parses");
    let d = drift_present(&b, &BTreeMap::new());
    assert_eq!(d.len(), 1);
    assert_eq!(d[0].actual, "<absent>");
}

#[test]
fn an_object_present_but_in_the_wrong_state_is_drift() {
    let b = parse("present ruleset floor active\n").expect("parses");
    let actual = BTreeMap::from([("ruleset/floor".to_owned(), "evaluate".to_owned())]);
    let d = drift_present(&b, &actual);
    assert_eq!(d.len(), 1);
    assert_eq!(d[0].actual, "evaluate");
    assert_eq!(d[0].desired, "active");
}

#[test]
fn a_baseline_lists_its_repositories_and_settings() {
    let b = parse("repo alpha\nrepo beta\nsetting has_wiki false\n").expect("parses");
    assert_eq!(b.repos, ["alpha", "beta"]);
    assert_eq!(b.settings, [("has_wiki".to_owned(), "false".to_owned())]);
}

#[test]
fn comments_and_blank_lines_are_ignored() {
    let b =
        parse("# a note\n\nrepo alpha\n\n# another\nsetting has_wiki false\n").expect("parses");
    assert_eq!(b.repos, ["alpha"]);
    assert_eq!(b.settings.len(), 1);
}

/// A typo that silently configures nothing is worse than one that stops.
#[test]
fn an_unknown_directive_is_refused() {
    let err = parse("repoo alpha\n").expect_err("must refuse");
    assert!(err.contains("repoo"), "the message should name it: {err}");
}

#[test]
fn a_setting_needs_a_key_and_a_value() {
    assert!(parse("setting has_wiki\n").is_err());
}

#[test]
fn matching_settings_are_not_drift() {
    let b = parse("repo alpha\nsetting has_wiki false\n").expect("parses");
    let actual = BTreeMap::from([("has_wiki".to_owned(), "false".to_owned())]);
    assert!(drift(&b, &actual).is_empty());
}

#[test]
fn a_differing_setting_is_reported_with_both_values() {
    let b = parse("repo alpha\nsetting has_wiki false\n").expect("parses");
    let actual = BTreeMap::from([("has_wiki".to_owned(), "true".to_owned())]);
    let d = drift(&b, &actual);
    assert_eq!(d.len(), 1);
    assert_eq!(d[0].key, "has_wiki");
    assert_eq!(d[0].actual, "true");
    assert_eq!(d[0].desired, "false");
}

/// A setting the reading does not mention is drift, not a pass.
#[test]
fn a_setting_absent_from_the_reading_is_drift() {
    let b = parse("repo alpha\nsetting has_wiki false\n").expect("parses");
    let d = drift(&b, &BTreeMap::new());
    assert_eq!(d.len(), 1);
    assert_eq!(d[0].actual, "<unreadable>");
}
