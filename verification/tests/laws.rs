//! The promises the library makes across calls, on concrete values.

use governance::baseline::{self, drift, drift_files, drift_org, drift_present, offboard, parse, Kind};
use std::collections::BTreeMap;

const FLEET: &str = "\
# the fleet
repo maestro-core
repo maestro-pi-config
repo maestro-governance

setting has_wiki false
org actions.sha_pinning_required true
present ruleset floor active
rule deletion Organization
pending allow_squash_merge true

file clippy.toml    5f1f  maestro-core maestro-pi-config maestro-governance
file deny.toml      aaaa  maestro-core
file .editorconfig  0e21
";

#[test]
fn offboarding_changes_nothing_but_the_repository_and_its_scopes() {
    let before = parse(FLEET).expect("parses");
    let out = offboard(FLEET, "maestro-core").expect("offboard");
    let after = parse(&out).expect("still parses");
    assert_eq!(after.repos, ["maestro-pi-config", "maestro-governance"]);
    assert_eq!(after.settings, before.settings);
    assert_eq!(after.org, before.org);
    assert_eq!(after.rules, before.rules);
    assert_eq!(after.pending, before.pending);
    assert_eq!(after.present.len(), 1);
    assert_eq!(after.files.len(), 2);
    assert_eq!(after.files[0].path, "clippy.toml");
    assert_eq!(after.files[0].scope, ["maestro-pi-config", "maestro-governance"]);
    assert_eq!(after.files[1].path, ".editorconfig");
    assert!(after.files[1].scope.is_empty());
}

#[test]
fn offboarding_keeps_comments_and_aligned_columns() {
    let out = offboard(FLEET, "maestro-core").expect("offboard");
    assert!(out.starts_with("# the fleet\n"));
    assert!(out.contains("file clippy.toml    5f1f  maestro-pi-config maestro-governance\n"));
    assert!(out.contains("file .editorconfig  0e21\n"));
    assert!(out.ends_with('\n'));
}

#[test]
fn offboarding_twice_is_refused() {
    let out = offboard(FLEET, "maestro-core").expect("offboard");
    let err = offboard(&out, "maestro-core").expect_err("already gone");
    assert_eq!(err, "maestro-core is not in the baseline");
}

#[test]
fn offboarding_a_text_that_does_not_parse_reports_the_parse_error() {
    let err = offboard("repo a\nnonsense\n", "a").expect_err("does not parse");
    assert_eq!(err, "line 2: unknown directive `nonsense`");
}

#[test]
fn offboarding_the_only_line_leaves_an_empty_line() {
    assert_eq!(offboard("repo a", "a").expect("offboard"), "\n");
}

#[test]
fn crlf_lines_come_back_with_plain_newlines() {
    assert_eq!(
        offboard("repo a\r\nrepo b\r\n", "a").expect("offboard"),
        "repo b\n"
    );
}

#[test]
fn no_drift_exactly_when_every_setting_matches() {
    let b = parse("setting a 1\nsetting b 2\n").expect("parses");
    let matching = BTreeMap::from([
        ("a".to_owned(), "1".to_owned()),
        ("b".to_owned(), "2".to_owned()),
        ("unrelated".to_owned(), "x".to_owned()),
    ]);
    assert!(drift(&b, &matching).is_empty());
    let one_off = BTreeMap::from([("a".to_owned(), "1".to_owned()), ("b".to_owned(), "3".to_owned())]);
    let d = drift(&b, &one_off);
    assert_eq!(d.len(), 1);
    assert_eq!((d[0].key.as_str(), d[0].desired.as_str(), d[0].actual.as_str()), ("b", "2", "3"));
    assert_eq!(d[0].kind, Kind::Setting);
}

#[test]
fn drift_follows_the_baseline_order() {
    let b = parse("setting z 1\nsetting a 1\n").expect("parses");
    let d = drift(&b, &BTreeMap::new());
    assert_eq!(d.iter().map(|x| x.key.as_str()).collect::<Vec<_>>(), ["z", "a"]);
}

#[test]
fn a_file_scoped_elsewhere_is_not_checked_here() {
    let b = parse(FLEET).expect("parses");
    let d = drift_files(&b, "maestro-pi-config", &BTreeMap::new());
    let keys: Vec<&str> = d.iter().map(|x| x.key.as_str()).collect();
    assert_eq!(keys, ["clippy.toml", ".editorconfig"]);
    assert!(d.iter().all(|x| x.actual == "<absent>" && x.kind == Kind::File));
}

#[test]
fn settings_fields_are_key_equals_desired() {
    let b = parse("setting has_wiki false\nsetting has_issues true\n").expect("parses");
    let d = drift(&b, &BTreeMap::new());
    assert_eq!(
        baseline::settings_fields(&d),
        ["has_wiki=false", "has_issues=true"]
    );
}

#[test]
fn a_deleted_object_is_drift_whatever_state_was_expected() {
    let b = parse("present ruleset ghost <absent>\n").expect("parses");
    let d = drift_present(&b, &BTreeMap::new());
    assert_eq!(d.len(), 1);
    assert_eq!(d[0].key, "ruleset/ghost");
    assert_eq!(d[0].desired, "<absent>");
    assert_eq!(d[0].actual, "<absent>");
    assert_eq!(d[0].kind, Kind::Present);
}

#[test]
fn an_unread_setting_is_drift_whatever_value_was_wanted() {
    let b = parse("setting odd <unreadable>\norg odd <unreadable>\n").expect("parses");
    let d = drift(&b, &BTreeMap::new());
    assert_eq!(d.len(), 1);
    assert_eq!((d[0].key.as_str(), d[0].desired.as_str(), d[0].actual.as_str()), ("odd", "<unreadable>", "<unreadable>"));
    let o = drift_org(&b, &BTreeMap::new());
    assert_eq!(o.len(), 1);
    assert_eq!(o[0].kind, Kind::Org);
    let read = BTreeMap::from([("odd".to_owned(), "<unreadable>".to_owned())]);
    assert!(drift(&b, &read).is_empty());
}

#[test]
fn a_missing_file_is_drift_whatever_blob_was_wanted() {
    let b = parse("file a.toml <absent>\n").expect("parses");
    let d = drift_files(&b, "any", &BTreeMap::new());
    assert_eq!(d.len(), 1);
    assert_eq!((d[0].key.as_str(), d[0].actual.as_str()), ("a.toml", "<absent>"));
}

#[test]
fn offboarding_two_repositories_in_either_order_gives_the_same_text() {
    let a = offboard(&offboard(FLEET, "maestro-core").expect("first"), "maestro-pi-config").expect("second");
    let b = offboard(&offboard(FLEET, "maestro-pi-config").expect("first"), "maestro-core").expect("second");
    assert_eq!(a, b);
    assert!(a.contains("file clippy.toml    5f1f  maestro-governance\n"));
    assert!(!a.contains("deny.toml"));
}

#[test]
fn blank_and_comment_lines_change_nothing_parsed() {
    let plain = parse("repo a\nsetting k v\nfile f 1 a\n").expect("parses");
    let padded = parse("\n# heading\nrepo a\n   \n\t# indented comment\nsetting k v\n\nfile f 1 a\n#\n").expect("parses");
    assert_eq!(padded.repos, plain.repos);
    assert_eq!(padded.settings, plain.settings);
    assert_eq!(padded.files.len(), 1);
    assert_eq!(padded.files[0].path, plain.files[0].path);
    assert_eq!(padded.files[0].scope, plain.files[0].scope);
}

#[test]
fn each_list_keeps_the_order_of_its_lines() {
    let b = parse("repo b\nsetting x 1\nrepo a\norg y 2\nsetting w 3\npending z\n").expect("parses");
    assert_eq!(b.repos, ["b", "a"]);
    assert_eq!(b.settings, [("x".to_owned(), "1".to_owned()), ("w".to_owned(), "3".to_owned())]);
    assert_eq!(b.org, [("y".to_owned(), "2".to_owned())]);
    assert_eq!(b.pending, ["z"]);
}

#[test]
fn comparing_two_lists_is_comparing_each_in_turn() {
    let both = parse("setting a 1\nsetting b 2\n").expect("parses");
    let first = parse("setting a 1\n").expect("parses");
    let second = parse("setting b 2\n").expect("parses");
    let read = BTreeMap::from([("a".to_owned(), "0".to_owned())]);
    let keys = |d: Vec<baseline::Drift>| d.into_iter().map(|x| (x.key, x.actual)).collect::<Vec<_>>();
    let mut each = keys(drift(&first, &read));
    each.extend(keys(drift(&second, &read)));
    assert_eq!(keys(drift(&both, &read)), each);
    assert!(drift(&parse("").expect("parses"), &read).is_empty());
}
