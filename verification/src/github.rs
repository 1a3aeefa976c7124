//! What is asked of GitHub, and what its answers are read as.
//!
//! GitHub is reached through the `gh` CLI by the binary. Every reading is the
//! same shape: run `gh api <path> --jq <jq>`, whose jq expression flattens the
//! answer to `key=value` lines, and merge the lines. What is asked and how the
//! lines are merged is decided here; running `gh` is not.
use vstd::prelude::*;
use std::collections::BTreeMap;
use crate::reading::{reading_insert, reading_new, reading_view};
use crate::text::{
    char_rows, chars_of, extend_chars, increasing, insert_sorted, join, join_chars, lacks,
    lemma_pieces_join, same_chars, string_of, string_views, trim, trim_chars,
};
use crate::baseline::rule_drift;

verus! {

/// One `gh api <path> --jq <jq>` call.
pub struct Query {
    pub path: String,
    pub jq: String,
}

impl View for Query {
    type V = (Seq<char>, Seq<char>);

    open spec fn view(&self) -> (Seq<char>, Seq<char>) {
        (self.path@, self.jq@)
    }
}

/// The views of a vector of queries.
pub open spec fn query_views(q: Seq<Query>) -> Seq<(Seq<char>, Seq<char>)> {
    q.map_values(|x: Query| x@)
}

/// The keys read back from a repository, exactly those the baseline can set.
pub open spec fn readable() -> Seq<Seq<char>> {
    seq![
        "allow_squash_merge"@,
        "allow_merge_commit"@,
        "allow_rebase_merge"@,
        "delete_branch_on_merge"@,
        "has_wiki"@,
        "has_projects"@,
        "has_issues"@,
        "web_commit_signoff_required"@,
    ]
}

/// The jq line for one key: `<key>=\(.<key>)`.
pub open spec fn jq_field(k: Seq<char>) -> Seq<char> {
    k + "=\\(."@ + k + ")"@
}

/// The jq expression for a repository's settings: one quoted string holding
/// `<key>=\(.<key>)` for each readable key, joined by `\n`.
pub open spec fn settings_jq_spec() -> Seq<char> {
    "\""@ + join(readable().map_values(|k: Seq<char>| jq_field(k)), "\\n"@) + "\""@
}

fn readable_keys() -> (r: Vec<Vec<char>>)
    ensures
        char_rows(r@) == readable(),
{
    let mut r: Vec<Vec<char>> = Vec::new();
    r.push(chars_of("allow_squash_merge"));
    r.push(chars_of("allow_merge_commit"));
    r.push(chars_of("allow_rebase_merge"));
    r.push(chars_of("delete_branch_on_merge"));
    r.push(chars_of("has_wiki"));
    r.push(chars_of("has_projects"));
    r.push(chars_of("has_issues"));
    r.push(chars_of("web_commit_signoff_required"));
    assert(char_rows(r@) =~= readable());
    r
}

fn settings_jq() -> (s: String)
    ensures
        s@ == settings_jq_spec(),
{
    let keys = readable_keys();
    let ghost ks = readable();
    let mut fields: Vec<Vec<char>> = Vec::new();
    for i in 0..keys.len()
        invariant
            ks == readable(),
            char_rows(keys@) == ks,
            char_rows(fields@) == ks.take(i as int).map_values(|k: Seq<char>| jq_field(k)),
    {
        let mut f = keys[i].clone();
        extend_chars(&mut f, &chars_of("=\\(."));
        extend_chars(&mut f, &keys[i]);
        extend_chars(&mut f, &chars_of(")"));
        let ghost prev = fields@;
        let ghost fv = f@;
        assert(keys@[i as int]@ == ks[i as int]);
        fields.push(f);
        assert(char_rows(fields@) =~= char_rows(prev).push(fv));
        assert(ks.take(i + 1) =~= ks.take(i as int).push(ks[i as int]));
        assert(char_rows(fields@) =~= ks.take(i + 1).map_values(|k: Seq<char>| jq_field(k)));
    }
    assert(ks.take(keys.len() as int) =~= ks);
    let mut s = chars_of("\"");
    extend_chars(&mut s, &join_chars(&fields, &chars_of("\\n")));
    extend_chars(&mut s, &chars_of("\""));
    string_of(&s)
}

fn query(path: Vec<char>, jq: &str) -> (q: Query)
    ensures
        q@ == (path@, jq@),
{
    Query { path: string_of(&path), jq: jq.to_owned() }
}

fn path3(a: &str, b: &str, c: &str) -> (r: Vec<char>)
    ensures
        r@ == a@ + b@ + c@,
{
    let mut r = chars_of(a);
    extend_chars(&mut r, &chars_of(b));
    extend_chars(&mut r, &chars_of(c));
    r
}

/// What a repository's settings reading asks: `repos/<org>/<repo>`, with the
/// readable keys flattened to `key=value` lines.
pub fn read_settings(org: &str, repo: &str) -> (r: Vec<Query>)
    ensures
        query_views(r@) == seq![("repos/"@ + org@ + "/"@ + repo@, settings_jq_spec())],
{
    let path = path3("repos/", org, "/");
    let mut path = path;
    extend_chars(&mut path, &chars_of(repo));
    let jq = settings_jq();
    let mut r: Vec<Query> = Vec::new();
    r.push(Query { path: string_of(&path), jq });
    assert(query_views(r@) =~= seq![("repos/"@ + org@ + "/"@ + repo@, settings_jq_spec())]);
    r
}

/// The organisation's settings reading: two-factor enforcement, action
/// pinning, default workflow permissions, and the `tier` property.
pub open spec fn org_queries(org: Seq<char>) -> Seq<(Seq<char>, Seq<char>)> {
    seq![
        ("orgs/"@ + org, r#""two_factor_requirement_enabled=\(.two_factor_requirement_enabled)""#@),
        ("orgs/"@ + org + "/actions/permissions"@, r#""actions.sha_pinning_required=\(.sha_pinning_required)""#@),
        (
            "orgs/"@ + org + "/actions/permissions/workflow"@,
            r#""actions.default_workflow_permissions=\(.default_workflow_permissions)\nactions.can_approve_pull_request_reviews=\(.can_approve_pull_request_reviews)""#@,
        ),
        (
            "orgs/"@ + org + "/properties/schema"@,
            r#".[] | select(.property_name=="tier") | "properties.tier.required=\(.required)\nproperties.tier.default_value=\(.default_value)""#@,
        ),
    ]
}

/// What the organisation reading asks.
pub fn read_org(org: &str) -> (r: Vec<Query>)
    ensures
        query_views(r@) == org_queries(org@),
{
    let mut r: Vec<Query> = Vec::new();
    r.push(query(path3("orgs/", org, ""), r#""two_factor_requirement_enabled=\(.two_factor_requirement_enabled)""#));
    r.push(query(path3("orgs/", org, "/actions/permissions"), r#""actions.sha_pinning_required=\(.sha_pinning_required)""#));
    r.push(query(
        path3("orgs/", org, "/actions/permissions/workflow"),
        r#""actions.default_workflow_permissions=\(.default_workflow_permissions)\nactions.can_approve_pull_request_reviews=\(.can_approve_pull_request_reviews)""#,
    ));
    r.push(query(
        path3("orgs/", org, "/properties/schema"),
        r#".[] | select(.property_name=="tier") | "properties.tier.required=\(.required)\nproperties.tier.default_value=\(.default_value)""#,
    ));
    proof {
        reveal_strlit("");
    }
    assert(query_views(r@) =~= org_queries(org@));
    r
}

/// What a repository's file reading asks: every blob at the root of the
/// default branch's tree, by path, with its git blob hash. One call rather
/// than one per file, and the hash is what GitHub already stores.
pub fn read_files(org: &str, repo: &str, branch: &str) -> (r: Vec<Query>)
    ensures
        query_views(r@) == seq![(
            "repos/"@ + org@ + "/"@ + repo@ + "/git/trees/"@ + branch@,
            r#".tree[] | select(.type=="blob") | "\(.path)=\(.sha)""#@,
        )],
{
    let mut path = path3("repos/", org, "/");
    extend_chars(&mut path, &path3(repo, "/git/trees/", branch));
    assert(path@ =~= "repos/"@ + org@ + "/"@ + repo@ + "/git/trees/"@ + branch@);
    let mut r: Vec<Query> = Vec::new();
    r.push(query(path, r#".tree[] | select(.type=="blob") | "\(.path)=\(.sha)""#));
    assert(query_views(r@) =~= seq![(
        "repos/"@ + org@ + "/"@ + repo@ + "/git/trees/"@ + branch@,
        r#".tree[] | select(.type=="blob") | "\(.path)=\(.sha)""#@,
    )]);
    r
}

/// What a repository's rule reading asks: the rules actually in effect on
/// its default branch, by type, with where each comes from. Repository
/// scoped, so the audit token needs no organisation write -- which listing
/// the rulesets would have required.
pub fn read_rules(org: &str, repo: &str, branch: &str) -> (r: Vec<Query>)
    ensures
        query_views(r@) == seq![(
            "repos/"@ + org@ + "/"@ + repo@ + "/rules/branches/"@ + branch@,
            r#".[] | "\(.type)=\(.ruleset_source_type)""#@,
        )],
{
    let mut path = path3("repos/", org, "/");
    extend_chars(&mut path, &path3(repo, "/rules/branches/", branch));
    assert(path@ =~= "repos/"@ + org@ + "/"@ + repo@ + "/rules/branches/"@ + branch@);
    let mut r: Vec<Query> = Vec::new();
    r.push(query(path, r#".[] | "\(.type)=\(.ruleset_source_type)""#));
    assert(query_views(r@) =~= seq![(
        "repos/"@ + org@ + "/"@ + repo@ + "/rules/branches/"@ + branch@,
        r#".[] | "\(.type)=\(.ruleset_source_type)""#@,
    )]);
    r
}

/// Whether `i` is where `c` first occurs in `l`.
pub open spec fn first_at(l: Seq<char>, c: char, i: int) -> bool {
    0 <= i < l.len() && l[i] == c && forall|j: int| 0 <= j < i ==> l[j] != c
}

/// A `key=value` line, split at its first `=` and trimmed on both sides;
/// none for a line with no `=`.
pub open spec fn key_value(l: Seq<char>) -> Option<(Seq<char>, Seq<char>)> {
    if exists|i: int| first_at(l, '=', i) {
        let i = choose|i: int| first_at(l, '=', i);
        Some((trim(l.take(i)), trim(l.skip(i + 1))))
    } else {
        None
    }
}

fn key_value_of(l: &Vec<char>) -> (r: Option<(Vec<char>, Vec<char>)>)
    ensures
        match r {
            Some(p) => key_value(l@) == Some((p.0@, p.1@)),
            None => key_value(l@) is None,
        },
{
    let mut i: usize = 0;
    while i < l.len() && l[i] != '='
        invariant
            i <= l.len(),
            forall|j: int| 0 <= j < i ==> l@[j] != '=',
        decreases l.len() - i,
    {
        i += 1;
    }
    if i == l.len() {
        return None;
    }
    proof {
        assert(first_at(l@, '=', i as int));
        let k = choose|k: int| first_at(l@, '=', k);
        if k < i {
            assert(l@[k] == '=');
        } else if k > i {
            assert(l@[i as int] != '=');
        }
    }
    let mut key: Vec<char> = Vec::new();
    let mut value: Vec<char> = Vec::new();
    for j in 0..l.len()
        invariant
            i < l.len(),
            j <= i ==> key@ == l@.take(j as int) && value@ == Seq::<char>::empty(),
            j > i ==> key@ == l@.take(i as int) && value@ == l@.subrange(i + 1, j as int),
    {
        if j < i {
            key.push(l[j]);
            assert(l@.take(j + 1) =~= l@.take(j as int).push(l@[j as int]));
        } else if j > i {
            value.push(l[j]);
            assert(l@.subrange(i + 1, j + 1) =~= l@.subrange(i + 1, j as int).push(l@[j as int]));
        } else {
            assert(l@.subrange(i + 1, i + 1) =~= Seq::<char>::empty());
        }
    }
    assert(l@.subrange(i + 1, l.len() as int) =~= l@.skip(i + 1));
    Some((trim_chars(&key), trim_chars(&value)))
}

/// The reading a sequence of `key=value` lines makes: a later line for a key
/// replaces an earlier one, and a line with no `=` is ignored.
pub open spec fn reading_of(lines: Seq<Seq<char>>) -> Map<Seq<char>, Seq<char>>
    decreases lines.len(),
{
    if lines.len() == 0 {
        Map::empty()
    } else {
        let m = reading_of(lines.drop_last());
        match key_value(lines.last()) {
            Some(kv) => m.insert(kv.0, kv.1),
            None => m,
        }
    }
}

/// The lines of every answer, in the order the queries were run.
pub open spec fn all_lines(answers: Seq<Vec<String>>) -> Seq<Seq<char>>
    decreases answers.len(),
{
    if answers.len() == 0 {
        seq![]
    } else {
        all_lines(answers.drop_last()) + string_views(answers.last()@)
    }
}

/// Merges the answers to a reading's queries, each the `key=value` lines
/// that `gh` printed, into one reading.
pub fn read(answers: &Vec<Vec<String>>) -> (r: BTreeMap<String, String>)
    ensures
        reading_view(&r) == reading_of(all_lines(answers@)),
{
    let mut m = reading_new();
    assert(answers@.take(0) =~= Seq::<Vec<String>>::empty());
    for i in 0..answers.len()
        invariant
            reading_view(&m) == reading_of(all_lines(answers@.take(i as int))),
    {
        let ghost before = all_lines(answers@.take(i as int));
        let ghost these = string_views(answers@[i as int]@);
        assert(answers@.take(i + 1).drop_last() =~= answers@.take(i as int));
        assert(all_lines(answers@.take(i + 1)) == before + these);
        assert(these.take(0) =~= Seq::<Seq<char>>::empty());
        assert(before + these.take(0) =~= before);
        let n = answers[i].len();
        for j in 0..n
            invariant
                i < answers.len(),
                n == answers@[i as int].len(),
                these == string_views(answers@[i as int]@),
                reading_view(&m) == reading_of(before + these.take(j as int)),
        {
            let l = chars_of(answers[i][j].as_str());
            assert(l@ == these[j as int]);
            let ghost next = before + these.take(j + 1);
            assert(next.drop_last() =~= before + these.take(j as int));
            assert(next.last() == these[j as int]);
            if let Some(kv) = key_value_of(&l) {
                reading_insert(&mut m, string_of(&kv.0), string_of(&kv.1));
            }
        }
        assert(these.take(n as int) =~= these);
    }
    assert(answers@.take(answers.len() as int) =~= answers@);
    m
}

/// Whether a line reports `value` for `key`.
pub open spec fn line_says(l: Seq<char>, key: Seq<char>, value: Seq<char>) -> bool {
    key_value(l) == Some((key, value))
}

/// Every value the lines report for `key`.
pub open spec fn values_of(lines: Seq<Seq<char>>, key: Seq<char>) -> Set<Seq<char>> {
    Set::new(|v: Seq<char>| exists|i: int| 0 <= i < lines.len() && #[trigger] line_says(lines[i], key, v))
}

proof fn lemma_values_push(lines: Seq<Seq<char>>, l: Seq<char>, key: Seq<char>)
    ensures
        values_of(lines.push(l), key) == match key_value(l) {
            Some(kv) => if kv.0 == key {
                values_of(lines, key).insert(kv.1)
            } else {
                values_of(lines, key)
            },
            None => values_of(lines, key),
        },
{
    let after = values_of(lines.push(l), key);
    let want = match key_value(l) {
        Some(kv) => if kv.0 == key {
            values_of(lines, key).insert(kv.1)
        } else {
            values_of(lines, key)
        },
        None => values_of(lines, key),
    };
    assert forall|v: Seq<char>| after.contains(v) implies want.contains(v) by {
        let i = choose|i: int| 0 <= i < lines.push(l).len() && #[trigger] line_says(lines.push(l)[i], key, v);
        if i < lines.len() {
            assert(lines.push(l)[i] == lines[i]);
            assert(line_says(lines[i], key, v));
        } else {
            assert(lines.push(l)[i] == l);
        }
    }
    assert forall|v: Seq<char>| want.contains(v) implies after.contains(v) by {
        if values_of(lines, key).contains(v) {
            let i = choose|i: int| 0 <= i < lines.len() && #[trigger] line_says(lines[i], key, v);
            assert(lines.push(l)[i] == lines[i]);
            assert(line_says(lines.push(l)[i], key, v));
        } else {
            let n = lines.len() as int;
            assert(lines.push(l)[n] == l);
            assert(line_says(lines.push(l)[n], key, v));
        }
    }
    assert(after =~= want);
}

/// Whether one of `kinds` is `k`.
pub open spec fn has_kind(kinds: Seq<Seq<char>>, k: Seq<char>) -> bool {
    exists|t: int| 0 <= t < kinds.len() && kinds[t] == k
}

/// The views of a vector of vectors of character vectors.
pub open spec fn source_rows(v: Seq<Vec<Vec<char>>>) -> Seq<Seq<Seq<char>>> {
    v.map_values(|x: Vec<Vec<char>>| char_rows(x@))
}

/// `kinds` lists each key the lines name, once, and `srcs` holds, for
/// each, the values the lines give for it, in increasing order.
pub open spec fn gathered(kinds: Seq<Seq<char>>, srcs: Seq<Seq<Seq<char>>>, lines: Seq<Seq<char>>) -> bool {
    &&& kinds.len() == srcs.len()
    &&& forall|a: int, b: int| 0 <= a < b < kinds.len() ==> #[trigger] kinds[a] != #[trigger] kinds[b]
    &&& forall|k: Seq<char>| #[trigger] has_kind(kinds, k) <==> values_of(lines, k) != Set::<Seq<char>>::empty()
    &&& forall|t: int| 0 <= t < kinds.len() ==> increasing(#[trigger] srcs[t]) && srcs[t].to_set() == values_of(lines, kinds[t])
}

proof fn lemma_gathered_start(lines: Seq<Seq<char>>)
    requires
        lines.len() == 0,
    ensures
        gathered(seq![], seq![], lines),
{
    assert forall|k: Seq<char>| #[trigger] has_kind(seq![], k) <==> values_of(lines, k) != Set::<Seq<char>>::empty() by {
        assert(values_of(lines, k) =~= Set::<Seq<char>>::empty());
    }
}

proof fn lemma_gathered_skip(kinds: Seq<Seq<char>>, srcs: Seq<Seq<Seq<char>>>, lines: Seq<Seq<char>>, l: Seq<char>)
    requires
        gathered(kinds, srcs, lines),
        key_value(l) is None,
    ensures
        gathered(kinds, srcs, lines.push(l)),
{
    assert forall|k: Seq<char>| values_of(lines.push(l), k) == values_of(lines, k) by {
        lemma_values_push(lines, l, k);
    }
    assert forall|k: Seq<char>| #[trigger] has_kind(kinds, k) <==> values_of(lines.push(l), k) != Set::<Seq<char>>::empty() by {
        assert(has_kind(kinds, k) <==> values_of(lines, k) != Set::<Seq<char>>::empty());
    }
}

proof fn lemma_gathered_existing(
    kinds: Seq<Seq<char>>,
    srcs: Seq<Seq<Seq<char>>>,
    lines: Seq<Seq<char>>,
    l: Seq<char>,
    t: int,
    k: Seq<char>,
    v: Seq<char>,
    s2: Seq<Seq<char>>,
)
    requires
        gathered(kinds, srcs, lines),
        key_value(l) == Some((k, v)),
        0 <= t < kinds.len(),
        kinds[t] == k,
        increasing(s2),
        s2.to_set() == srcs[t].to_set().insert(v),
    ensures
        gathered(kinds, srcs.update(t, s2), lines.push(l)),
{
    let srcs2 = srcs.update(t, s2);
    assert forall|k2: Seq<char>| values_of(lines.push(l), k2) == (if k2 == k { values_of(lines, k2).insert(v) } else { values_of(lines, k2) }) by {
        lemma_values_push(lines, l, k2);
    }
    assert forall|k2: Seq<char>| #[trigger] has_kind(kinds, k2) <==> values_of(lines.push(l), k2) != Set::<Seq<char>>::empty() by {
        assert(has_kind(kinds, k2) <==> values_of(lines, k2) != Set::<Seq<char>>::empty());
        if k2 == k {
            assert(has_kind(kinds, k2));
            assert(values_of(lines.push(l), k2).contains(v));
        }
    }
    assert forall|u: int| 0 <= u < kinds.len() implies increasing(#[trigger] srcs2[u]) && srcs2[u].to_set() == values_of(lines.push(l), kinds[u]) by {
        if u != t {
            assert(kinds[u] != kinds[t]) by {
                if u < t {
                    assert(kinds[u] != kinds[t]);
                } else {
                    assert(kinds[t] != kinds[u]);
                }
            }
            assert(increasing(srcs[u]));
        }
    }
}

proof fn lemma_gathered_new(
    kinds: Seq<Seq<char>>,
    srcs: Seq<Seq<Seq<char>>>,
    lines: Seq<Seq<char>>,
    l: Seq<char>,
    k: Seq<char>,
    v: Seq<char>,
)
    requires
        gathered(kinds, srcs, lines),
        key_value(l) == Some((k, v)),
        !has_kind(kinds, k),
    ensures
        gathered(kinds.push(k), srcs.push(seq![v]), lines.push(l)),
{
    let kinds2 = kinds.push(k);
    let srcs2 = srcs.push(seq![v]);
    assert forall|k2: Seq<char>| values_of(lines.push(l), k2) == (if k2 == k { values_of(lines, k2).insert(v) } else { values_of(lines, k2) }) by {
        lemma_values_push(lines, l, k2);
    }
    assert(values_of(lines, k) == Set::<Seq<char>>::empty()) by {
        assert(has_kind(kinds, k) <==> values_of(lines, k) != Set::<Seq<char>>::empty());
    }
    assert forall|k2: Seq<char>| #[trigger] has_kind(kinds2, k2) <==> values_of(lines.push(l), k2) != Set::<Seq<char>>::empty() by {
        assert(has_kind(kinds, k2) <==> values_of(lines, k2) != Set::<Seq<char>>::empty());
        if k2 == k {
            assert(kinds2[kinds.len() as int] == k);
            assert(values_of(lines.push(l), k2).contains(v));
        } else {
            if has_kind(kinds2, k2) {
                let t = choose|t: int| 0 <= t < kinds2.len() && kinds2[t] == k2;
                assert(kinds[t] == k2);
            }
            if has_kind(kinds, k2) {
                let t = choose|t: int| 0 <= t < kinds.len() && kinds[t] == k2;
                assert(kinds2[t] == k2);
            }
        }
    }
    assert forall|a: int, b: int| 0 <= a < b < kinds2.len() implies #[trigger] kinds2[a] != #[trigger] kinds2[b] by {
        if b == kinds.len() {
            assert(kinds2[a] == kinds[a]);
            if kinds[a] == k {
                assert(has_kind(kinds, k));
            }
        } else {
            assert(kinds2[a] == kinds[a] && kinds2[b] == kinds[b]);
        }
    }
    let one = seq![v];
    assert(one.to_set() =~= Set::<Seq<char>>::empty().insert(v)) by {
        assert forall|y: Seq<char>| one.to_set().contains(y) implies y == v by {
            let i = choose|i: int| 0 <= i < one.len() && one[i] == y;
        }
        assert(one[0] == v);
    }
    assert forall|u: int| 0 <= u < kinds2.len() implies increasing(#[trigger] srcs2[u]) && srcs2[u].to_set() == values_of(lines.push(l), kinds2[u]) by {
        if u < kinds.len() {
            assert(srcs2[u] == srcs[u]);
            assert(kinds2[u] == kinds[u]);
            assert(kinds[u] != k) by {
                if kinds[u] == k {
                    assert(has_kind(kinds, k));
                }
            }
            assert(increasing(srcs[u]));
        } else {
            assert(srcs2[u] == one);
            assert(kinds2[u] == k);
            assert(values_of(lines, k).insert(v) =~= Set::<Seq<char>>::empty().insert(v));
        }
    }
}

/// A reading that maps each key the lines name, and nothing else, to every
/// value the lines give for it, in increasing order, each once, joined by
/// `,`.
pub open spec fn gathers(m: Map<Seq<char>, Seq<char>>, lines: Seq<Seq<char>>) -> bool {
    &&& forall|k: Seq<char>| m.contains_key(k) <==> values_of(lines, k) != Set::<Seq<char>>::empty()
    &&& forall|k: Seq<char>|
        #![trigger m[k]]
        m.contains_key(k) ==> exists|s: Seq<Seq<char>>|
            increasing(s) && s.to_set() == values_of(lines, k) && m[k] == join(s, ","@)
}

/// The rules reading: a rule type can be in effect from more than one
/// place, so its sources are gathered rather than overwritten -- each rule
/// type the lines name maps to all the sources they give for it, in
/// increasing order, each once, joined by `,`.
pub fn rule_sources(lines: &Vec<String>) -> (r: BTreeMap<String, String>)
    ensures
        gathers(reading_view(&r), string_views(lines@)),
{
    let ghost all = string_views(lines@);
    let mut kinds: Vec<Vec<char>> = Vec::new();
    let mut srcs: Vec<Vec<Vec<char>>> = Vec::new();
    assert(all.take(0) =~= Seq::<Seq<char>>::empty());
    proof {
        lemma_gathered_start(all.take(0));
        assert(char_rows(kinds@) =~= Seq::<Seq<char>>::empty());
        assert(source_rows(srcs@) =~= Seq::<Seq<Seq<char>>>::empty());
    }
    for n in 0..lines.len()
        invariant
            all == string_views(lines@),
            gathered(char_rows(kinds@), source_rows(srcs@), all.take(n as int)),
    {
        let l = chars_of(lines[n].as_str());
        let ghost before = all.take(n as int);
        let ghost kv0 = char_rows(kinds@);
        let ghost sv0 = source_rows(srcs@);
        assert(all.take(n + 1) =~= before.push(l@));
        assert(l@ == all[n as int]);
        match key_value_of(&l) {
            None => {
                proof {
                    lemma_gathered_skip(kv0, sv0, before, l@);
                }
            },
            Some(kv) => {
                let (k, v) = kv;
                let mut t: usize = 0;
                while t < kinds.len() && !same_chars(&kinds[t], &k)
                    invariant
                        t <= kinds.len(),
                        kv0 == char_rows(kinds@),
                        forall|u: int| 0 <= u < t ==> kv0[u] != k@,
                    decreases kinds.len() - t,
                {
                    t += 1;
                }
                if t < kinds.len() {
                    assert(kv0[t as int] == k@);
                    let ghost vv = v@;
                    let mut cur = srcs.remove(t);
                    assert(char_rows(cur@) == sv0[t as int]);
                    assert(increasing(sv0[t as int]));
                    insert_sorted(&mut cur, v);
                    let ghost s2 = char_rows(cur@);
                    srcs.insert(t, cur);
                    proof {
                        assert(source_rows(srcs@) =~= sv0.update(t as int, s2));
                        lemma_gathered_existing(kv0, sv0, before, l@, t as int, k@, vv, s2);
                    }
                } else {
                    let ghost kk = k@;
                    let ghost vv = v@;
                    proof {
                        if has_kind(kv0, kk) {
                            let u = choose|u: int| 0 <= u < kv0.len() && kv0[u] == kk;
                            assert(kv0[u] != kk);
                        }
                    }
                    kinds.push(k);
                    let mut one: Vec<Vec<char>> = Vec::new();
                    one.push(v);
                    assert(char_rows(one@) =~= seq![vv]);
                    srcs.push(one);
                    proof {
                        assert(char_rows(kinds@) =~= kv0.push(kk));
                        assert(source_rows(srcs@) =~= sv0.push(seq![vv]));
                        lemma_gathered_new(kv0, sv0, before, l@, kk, vv);
                    }
                }
            },
        }
    }
    assert(all.take(lines.len() as int) =~= all);
    let ghost kv = char_rows(kinds@);
    let ghost sv = source_rows(srcs@);
    let mut m = reading_new();
    let comma = chars_of(",");
    for t in 0..kinds.len()
        invariant
            kv == char_rows(kinds@),
            sv == source_rows(srcs@),
            gathered(kv, sv, all),
            comma@ == ","@,
            forall|k: Seq<char>| #![trigger reading_view(&m).contains_key(k)] reading_view(&m).contains_key(k) <==> (exists|u: int| 0 <= u < t && kv[u] == k),
            forall|u: int| 0 <= u < t ==> reading_view(&m)[#[trigger] kv[u]] == join(sv[u], ","@),
    {
        let joined = join_chars(&srcs[t], &comma);
        assert(char_rows(srcs@[t as int]@) == sv[t as int]);
        assert(kinds@[t as int]@ == kv[t as int]);
        let ghost kt = kv[t as int];
        reading_insert(&mut m, string_of(&kinds[t]), string_of(&joined));
        assert forall|u: int| 0 <= u < t + 1 implies reading_view(&m)[#[trigger] kv[u]] == join(sv[u], ","@) by {
            if u < t {
                assert(kv[u] != kt);
            }
        }
        assert forall|k: Seq<char>| #![trigger reading_view(&m).contains_key(k)] reading_view(&m).contains_key(k) <==> (exists|u: int| 0 <= u < t + 1 && kv[u] == k) by {
            if k == kt {
                assert(kv[t as int] == k);
            }
        }
    }
    assert forall|k: Seq<char>| reading_view(&m).contains_key(k) <==> values_of(all, k) != Set::<Seq<char>>::empty() by {
        assert(has_kind(kv, k) <==> values_of(all, k) != Set::<Seq<char>>::empty());
    }
    assert forall|k: Seq<char>|
        #![trigger reading_view(&m)[k]]
        reading_view(&m).contains_key(k) implies exists|s: Seq<Seq<char>>|
            increasing(s) && s.to_set() == values_of(all, k) && reading_view(&m)[k] == join(s, ","@) by {
        let u = choose|u: int| 0 <= u < kv.len() && kv[u] == k;
        let s = sv[u];
        assert(reading_view(&m)[kv[u]] == join(sv[u], ","@));
        assert(increasing(s) && s.to_set() == values_of(all, k) && reading_view(&m)[k] == join(s, ","@));
    }
    m
}

/// A branch rule in effect from the wanted source is not drift, whatever
/// other sources it is also in effect from: sources are gathered, not
/// overwritten, so an organisation rule that a repository also copies still
/// passes. (Sources are ruleset source types, which hold no `,`.)
pub proof fn lemma_gathered_rule_holds(
    m: Map<Seq<char>, Seq<char>>,
    lines: Seq<Seq<char>>,
    rule: Seq<char>,
    source: Seq<char>,
)
    requires
        gathers(m, lines),
        values_of(lines, rule).contains(source),
        forall|v: Seq<char>| values_of(lines, rule).contains(v) ==> lacks(v, ','),
    ensures
        rule_drift(m, (rule, source)) is None,
{
    reveal_strlit(",");
    assert(values_of(lines, rule) != Set::<Seq<char>>::empty()) by {
        if values_of(lines, rule) == Set::<Seq<char>>::empty() {
            assert(!Set::<Seq<char>>::empty().contains(source));
        }
    }
    assert(m.contains_key(rule));
    assert(m[rule] == m[rule]);
    let xs = choose|xs: Seq<Seq<char>>|
        increasing(xs) && xs.to_set() == values_of(lines, rule) && m[rule] == join(xs, ","@);
    assert(","@ =~= seq![',']);
    assert(xs.to_set().contains(source));
    assert forall|i: int| 0 <= i < xs.len() implies lacks(#[trigger] xs[i], ',') by {
        assert(xs.to_set().contains(xs[i]));
    }
    lemma_pieces_join(xs, ',');
}

} // verus!
