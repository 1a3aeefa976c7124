//! What is asked of GitHub and how its answers are read.

use governance::github::{read, read_files, read_org, read_rules, read_settings, rule_sources};

fn lines(xs: &[&str]) -> Vec<String> {
    xs.iter().map(|s| s.to_string()).collect()
}

#[test]
fn a_settings_reading_asks_for_every_readable_key() {
    let q = read_settings("maestrolabs-hq", "maestro-core");
    assert_eq!(q.len(), 1);
    assert_eq!(q[0].path, "repos/maestrolabs-hq/maestro-core");
    assert_eq!(
        q[0].jq,
        "\"allow_squash_merge=\\(.allow_squash_merge)\\nallow_merge_commit=\\(.allow_merge_commit)\\nallow_rebase_merge=\\(.allow_rebase_merge)\\ndelete_branch_on_merge=\\(.delete_branch_on_merge)\\nhas_wiki=\\(.has_wiki)\\nhas_projects=\\(.has_projects)\\nhas_issues=\\(.has_issues)\\nweb_commit_signoff_required=\\(.web_commit_signoff_required)\""
    );
}

#[test]
fn the_org_reading_makes_four_queries() {
    let q = read_org("acme");
    let paths: Vec<&str> = q.iter().map(|x| x.path.as_str()).collect();
    assert_eq!(
        paths,
        [
            "orgs/acme",
            "orgs/acme/actions/permissions",
            "orgs/acme/actions/permissions/workflow",
            "orgs/acme/properties/schema"
        ]
    );
    assert_eq!(
        q[0].jq,
        r#""two_factor_requirement_enabled=\(.two_factor_requirement_enabled)""#
    );
}

#[test]
fn files_and_rules_are_read_from_the_default_branch() {
    let f = read_files("acme", "core", "main");
    assert_eq!(f[0].path, "repos/acme/core/git/trees/main");
    assert_eq!(f[0].jq, r#".tree[] | select(.type=="blob") | "\(.path)=\(.sha)""#);
    let r = read_rules("acme", "core", "trunk");
    assert_eq!(r[0].path, "repos/acme/core/rules/branches/trunk");
    assert_eq!(r[0].jq, r#".[] | "\(.type)=\(.ruleset_source_type)""#);
}

#[test]
fn answers_are_merged_trimmed_and_later_lines_win() {
    let m = read(&vec![
        lines(&[" has_wiki = false ", "no equals sign here", "url=a=b"]),
        lines(&["has_wiki=true", "empty="]),
    ]);
    assert_eq!(m.len(), 3);
    assert_eq!(m["has_wiki"], "true");
    assert_eq!(m["url"], "a=b");
    assert_eq!(m["empty"], "");
}

#[test]
fn rule_sources_are_gathered_not_overwritten() {
    let m = rule_sources(&lines(&[
        "pull_request=Repository",
        "deletion=Organization",
        "pull_request=Organization",
        "pull_request=Repository",
    ]));
    assert_eq!(m.len(), 2);
    assert_eq!(m["pull_request"], "Organization,Repository");
    assert_eq!(m["deletion"], "Organization");
}

#[test]
fn no_answer_is_an_empty_reading() {
    assert!(read(&vec![]).is_empty());
    assert!(rule_sources(&vec![]).is_empty());
}
