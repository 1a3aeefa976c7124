//! The baseline format at its edges: line endings, whitespace, arities and
//! the exact error messages.

use governance::baseline::{arrived, drift_org, drift_rules, parse};
use std::collections::BTreeMap;

#[test]
fn an_unknown_directive_names_its_line_and_word() {
    let err = parse("repo alpha\nrepoo beta\n").expect_err("must refuse");
    assert_eq!(err, "line 2: unknown directive `repoo`");
}

#[test]
fn a_present_directive_without_a_state_is_refused() {
    let err = parse("present ruleset floor\n").expect_err("must refuse");
    assert_eq!(err, "line 1: `present` needs a state");
}

#[test]
fn line_numbers_count_comments_and_blank_lines() {
    let text = "# 1\n\n\n\n\n\n\n\n\n\n\nbogus x\n";
    let err = parse(text).expect_err("must refuse");
    assert_eq!(err, "line 12: unknown directive `bogus`");
}

#[test]
fn the_first_bad_line_is_the_one_reported() {
    let err = parse("first x\nsecond y\n").expect_err("must refuse");
    assert_eq!(err, "line 1: unknown directive `first`");
}

#[test]
fn a_repo_line_takes_exactly_one_name() {
    let err = parse("repo alpha beta\n").expect_err("must refuse");
    assert_eq!(err, "line 1: unknown directive `repo`");
}

#[test]
fn extra_fields_after_a_setting_value_are_ignored() {
    let b = parse("setting has_wiki false trailing words\n").expect("parses");
    assert_eq!(b.settings, [("has_wiki".to_owned(), "false".to_owned())]);
}

#[test]
fn crlf_line_endings_and_unicode_whitespace_separate_fields() {
    let b = parse("repo alpha\r\nsetting\u{3000}has_wiki\tfalse\r\n  # indented comment\r\n")
        .expect("parses");
    assert_eq!(b.repos, ["alpha"]);
    assert_eq!(b.settings, [("has_wiki".to_owned(), "false".to_owned())]);
}

#[test]
fn a_text_without_a_final_newline_parses_its_last_line() {
    let b = parse("repo alpha\nrepo beta").expect("parses");
    assert_eq!(b.repos, ["alpha", "beta"]);
}

#[test]
fn the_empty_text_is_the_empty_baseline() {
    let b = parse("").expect("parses");
    assert!(b.repos.is_empty() && b.settings.is_empty() && b.files.is_empty());
}

#[test]
fn rule_file_and_pending_directives_are_read() {
    let b = parse(
        "rule deletion Organization\nfile deny.toml abc maestro-core maestro-pi-config\nfile .editorconfig def\npending allow_squash_merge true\n",
    )
    .expect("parses");
    assert_eq!(b.rules, [("deletion".to_owned(), "Organization".to_owned())]);
    assert_eq!(b.files.len(), 2);
    assert_eq!(b.files[0].path, "deny.toml");
    assert_eq!(b.files[0].blob, "abc");
    assert_eq!(b.files[0].scope, ["maestro-core", "maestro-pi-config"]);
    assert!(b.files[1].scope.is_empty());
    assert_eq!(b.pending, ["allow_squash_merge"]);
}

#[test]
fn a_file_needs_a_path_and_a_blob() {
    assert_eq!(
        parse("file deny.toml\n").expect_err("must refuse"),
        "line 1: unknown directive `file`"
    );
}

#[test]
fn an_org_setting_absent_from_the_org_reading_is_drift() {
    let b = parse("org two_factor_requirement_enabled true\n").expect("parses");
    let d = drift_org(&b, &BTreeMap::new());
    assert_eq!(d.len(), 1);
    assert_eq!(d[0].key, "two_factor_requirement_enabled");
    assert_eq!(d[0].actual, "<unreadable>");
    assert_eq!(d[0].kind, governance::baseline::Kind::Org);
}

#[test]
fn a_rule_in_effect_from_several_sources_is_not_drift() {
    let b = parse("rule pull_request Organization\n").expect("parses");
    let actual = BTreeMap::from([(
        "pull_request".to_owned(),
        "Organization,Repository".to_owned(),
    )]);
    assert!(drift_rules(&b, &actual).is_empty());
}

/// A repository-level copy of the organisation floor could be deleted by
/// whoever owns that repository, so it does not satisfy an organisation rule.
#[test]
fn a_rule_only_from_the_repository_is_drift() {
    let b = parse("rule pull_request Organization\n").expect("parses");
    let actual = BTreeMap::from([("pull_request".to_owned(), "Repository".to_owned())]);
    let d = drift_rules(&b, &actual);
    assert_eq!(d.len(), 1);
    assert_eq!(d[0].actual, "Repository");
    assert_eq!(d[0].desired, "Organization");
}

#[test]
fn a_rule_not_in_effect_is_absent() {
    let b = parse("rule deletion Organization\n").expect("parses");
    let d = drift_rules(&b, &BTreeMap::new());
    assert_eq!(d[0].actual, "<absent>");
}

#[test]
fn a_pending_key_that_becomes_readable_has_arrived() {
    let b = parse("pending actions.sha_pinning_required true\npending properties.tier.required true\n")
        .expect("parses");
    let actual = BTreeMap::from([("actions.sha_pinning_required".to_owned(), "false".to_owned())]);
    assert_eq!(arrived(&b, &actual), ["actions.sha_pinning_required"]);
}
