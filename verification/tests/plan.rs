//! What a plan reports and what an apply may do.

use governance::baseline::{drift_files, drift_org, parse};
use governance::plan::{drift_total, next_step, repo_drift, Step};
use std::collections::BTreeMap;

const SAMPLE: &str = "\
repo maestro-core
setting has_wiki false
org actions.sha_pinning_required true
rule deletion Organization
file clippy.toml 5f1f
";

fn reading(pairs: &[(&str, &str)]) -> BTreeMap<String, String> {
    pairs.iter().map(|(k, v)| (k.to_string(), v.to_string())).collect()
}

#[test]
fn a_clean_fleet_is_clean_under_plan_and_apply() {
    let b = parse(SAMPLE).expect("parses");
    let d = repo_drift(
        &b,
        "maestro-core",
        &reading(&[("has_wiki", "false")]),
        &reading(&[("deletion", "Organization")]),
        &reading(&[("clippy.toml", "5f1f")]),
    );
    assert!(d.is_empty());
    let found = vec![("maestro-core".to_owned(), d)];
    assert!(matches!(next_step(false, false, &vec![], &found), Step::Clean));
    assert!(matches!(next_step(true, true, &vec![], &found), Step::Clean));
    assert_eq!(drift_total(&vec![], &found), Some(0));
}

#[test]
fn drift_under_plan_is_reported_not_passed() {
    let b = parse(SAMPLE).expect("parses");
    let d = repo_drift(&b, "maestro-core", &reading(&[]), &reading(&[]), &reading(&[]));
    assert_eq!(d.len(), 3);
    let found = vec![("maestro-core".to_owned(), d)];
    assert!(matches!(next_step(false, true, &vec![], &found), Step::Report));
    assert_eq!(drift_total(&vec![], &found), Some(3));
}

#[test]
fn apply_needs_approval() {
    let b = parse(SAMPLE).expect("parses");
    let d = repo_drift(&b, "maestro-core", &reading(&[]), &reading(&[("deletion", "Organization")]), &reading(&[("clippy.toml", "5f1f")]));
    let found = vec![("maestro-core".to_owned(), d)];
    assert!(matches!(next_step(true, false, &vec![], &found), Step::NeedsApproval));
}

#[test]
fn apply_refuses_organisation_drift() {
    let b = parse(SAMPLE).expect("parses");
    let org = drift_org(&b, &reading(&[]));
    assert!(matches!(next_step(true, true, &org, &vec![]), Step::OrgNotWritten(1)));
}

#[test]
fn apply_refuses_drift_that_is_not_a_setting() {
    let b = parse(SAMPLE).expect("parses");
    let d = repo_drift(&b, "maestro-core", &reading(&[]), &reading(&[]), &reading(&[("clippy.toml", "5f1f")]));
    let found = vec![("maestro-core".to_owned(), d)];
    assert!(matches!(next_step(true, true, &vec![], &found), Step::NotSettings(1)));
    let files = drift_files(&b, "maestro-core", &reading(&[]));
    let found = vec![("maestro-core".to_owned(), files)];
    assert!(matches!(next_step(true, true, &vec![], &found), Step::NotSettings(1)));
}

#[test]
fn apply_writes_the_settings_of_each_repository_that_drifted() {
    let b = parse(SAMPLE).expect("parses");
    let d = repo_drift(
        &b,
        "maestro-core",
        &reading(&[("has_wiki", "true")]),
        &reading(&[("deletion", "Organization")]),
        &reading(&[("clippy.toml", "5f1f")]),
    );
    let found = vec![("quiet".to_owned(), vec![]), ("maestro-core".to_owned(), d)];
    match next_step(true, true, &vec![], &found) {
        Step::Write(w) => {
            assert_eq!(w.len(), 1);
            assert_eq!(w[0].0, "maestro-core");
            assert_eq!(w[0].1, ["has_wiki=false"]);
        }
        _ => panic!("expected a write"),
    }
}
