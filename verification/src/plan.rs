//! What a plan reports and what an apply may do, decided from the drift
//! that was found. The binary reads, prints and writes; the decisions are
//! here.
//!
//! Drift is not one thing, and the endpoint that fixes one kind cannot fix
//! another: only repository settings can be written by the repository
//! settings endpoint, which accepts anything else, ignores it and answers
//! with success. So an apply writes settings and refuses outright when any
//! other kind drifted.
use vstd::prelude::*;
use std::collections::BTreeMap;
use crate::baseline::{
    drift, drift_files, drift_rules, drift_views, settings_fields, setting_field, Baseline,
    Drift, DriftView, Kind,
};
use crate::reading::reading_view;
use crate::baseline::{compare_spec, files_spec, rules_spec, unreadable};
use crate::text::string_views;

verus! {

/// Everything one repository is compared on: its settings, the branch rules
/// in effect, and its tracked files, in that order.
pub fn repo_drift(
    baseline: &Baseline,
    repo: &str,
    settings: &BTreeMap<String, String>,
    rules: &BTreeMap<String, String>,
    files: &BTreeMap<String, String>,
) -> (r: Vec<Drift>)
    ensures
        drift_views(r@) == compare_spec(baseline@.settings, reading_view(settings), unreadable(), Kind::Setting)
            + rules_spec(baseline@.rules, reading_view(rules))
            + files_spec(baseline@.files, repo@, reading_view(files)),
{
    let mut d = drift(baseline, settings);
    let mut r = drift_rules(baseline, rules);
    let mut f = drift_files(baseline, repo, files);
    let ghost (dv, rv, fv) = (drift_views(d@), drift_views(r@), drift_views(f@));
    d.append(&mut r);
    assert(drift_views(d@) =~= dv + rv);
    d.append(&mut f);
    assert(drift_views(d@) =~= dv + rv + fv);
    d
}

/// The drift found on each repository, as views.
pub open spec fn found_views(found: Seq<(String, Vec<Drift>)>) -> Seq<(Seq<char>, Seq<DriftView>)> {
    found.map_values(|p: (String, Vec<Drift>)| (p.0@, drift_views(p.1@)))
}

/// How many drifts there are across repositories.
pub open spec fn found_total(found: Seq<(Seq<char>, Seq<DriftView>)>) -> nat
    decreases found.len(),
{
    if found.len() == 0 {
        0
    } else {
        found_total(found.drop_last()) + found.last().1.len()
    }
}

/// How many drifts across repositories are not repository settings.
pub open spec fn unwritable_total(found: Seq<(Seq<char>, Seq<DriftView>)>) -> nat
    decreases found.len(),
{
    if found.len() == 0 {
        0
    } else {
        unwritable_total(found.drop_last()) + found.last().1.filter(|d: DriftView| d.kind != Kind::Setting).len()
    }
}

/// Every drift, organisation-wide and per repository: `None` when the count
/// does not fit in a `usize`.
pub fn drift_total(org_drift: &Vec<Drift>, found: &Vec<(String, Vec<Drift>)>) -> (r: Option<usize>)
    ensures
        match r {
            Some(t) => t == org_drift.len() + found_total(found_views(found@)),
            None => org_drift.len() + found_total(found_views(found@)) > usize::MAX,
        },
{
    let ghost fv = found_views(found@);
    let mut total: usize = org_drift.len();
    assert(fv.take(0) =~= Seq::<(Seq<char>, Seq<DriftView>)>::empty());
    for i in 0..found.len()
        invariant
            fv == found_views(found@),
            total == org_drift.len() + found_total(fv.take(i as int)),
    {
        assert(fv.take(i + 1).drop_last() =~= fv.take(i as int));
        assert(fv[i as int].1.len() == found@[i as int].1.len());
        let n = found[i].1.len();
        if n > usize::MAX - total {
            proof {
                lemma_found_total_grows(fv, i + 1);
            }
            return None;
        }
        total = total + n;
    }
    assert(fv.take(found.len() as int) =~= fv);
    Some(total)
}

proof fn lemma_found_total_grows(found: Seq<(Seq<char>, Seq<DriftView>)>, k: int)
    requires
        0 <= k <= found.len(),
    ensures
        found_total(found.take(k)) <= found_total(found),
    decreases found.len() - k,
{
    if k < found.len() {
        lemma_found_total_grows(found, k + 1);
        assert(found.take(k + 1).drop_last() =~= found.take(k));
    } else {
        assert(found.take(k) =~= found);
    }
}

/// What comes after the plan has been worked out.
pub enum Step {
    /// Nothing drifted: every repository matches the baseline.
    Clean,
    /// Something drifted and only a plan was asked for: report it, and fail,
    /// because a scheduled audit derives its only signal from that.
    Report,
    /// An apply without `--auto-approve`: refuse to change anything
    /// unprompted.
    NeedsApproval,
    /// An organisation control drifted; this tool checks those and never
    /// writes them.
    OrgNotWritten(usize),
    /// This many drifts are not repository settings -- a branch rule lives
    /// in a ruleset, a tracked file is fixed by a commit.
    NotSettings(usize),
    /// Write, per repository that drifted, these `key=value` fields.
    Write(Vec<(String, Vec<String>)>),
}

/// Whether anything drifted at all.
pub open spec fn any_drift(org: Seq<DriftView>, found: Seq<(Seq<char>, Seq<DriftView>)>) -> bool {
    org.len() > 0 || exists|i: int| 0 <= i < found.len() && #[trigger] found[i].1.len() > 0
}

/// The writes an apply makes: for each repository with drift, in order, the
/// fields of its setting drifts.
pub open spec fn writes_spec(found: Seq<(Seq<char>, Seq<DriftView>)>) -> Seq<(Seq<char>, Seq<Seq<char>>)> {
    found.filter_map(
        |p: (Seq<char>, Seq<DriftView>)|
            if p.1.len() == 0 {
                None
            } else {
                Some((p.0, p.1.filter_map(|d: DriftView| setting_field(d))))
            },
    )
}

/// The step a plan (`apply == false`) or an apply leads to.
pub open spec fn step_spec(
    apply: bool,
    auto_approve: bool,
    org: Seq<DriftView>,
    found: Seq<(Seq<char>, Seq<DriftView>)>,
) -> StepView {
    if !any_drift(org, found) {
        StepView::Clean
    } else if !apply {
        StepView::Report
    } else if !auto_approve {
        StepView::NeedsApproval
    } else if org.len() > 0 {
        StepView::OrgNotWritten(org.len())
    } else if unwritable_total(found) > 0 {
        StepView::NotSettings(if unwritable_total(found) > usize::MAX { usize::MAX as nat } else { unwritable_total(found) })
    } else {
        StepView::Write(writes_spec(found))
    }
}

/// A step as its model.
pub enum StepView {
    Clean,
    Report,
    NeedsApproval,
    OrgNotWritten(nat),
    NotSettings(nat),
    Write(Seq<(Seq<char>, Seq<Seq<char>>)>),
}

impl View for Step {
    type V = StepView;

    open spec fn view(&self) -> StepView {
        match self {
            Step::Clean => StepView::Clean,
            Step::Report => StepView::Report,
            Step::NeedsApproval => StepView::NeedsApproval,
            Step::OrgNotWritten(n) => StepView::OrgNotWritten(*n as nat),
            Step::NotSettings(n) => StepView::NotSettings(*n as nat),
            Step::Write(w) => StepView::Write(
                w@.map_values(|p: (String, Vec<String>)| (p.0@, string_views(p.1@))),
            ),
        }
    }
}

fn count_unwritable(found: &Vec<(String, Vec<Drift>)>) -> (r: usize)
    ensures
        r == (if unwritable_total(found_views(found@)) > usize::MAX {
            usize::MAX as nat
        } else {
            unwritable_total(found_views(found@))
        }),
{
    let ghost fv = found_views(found@);
    let mut total: usize = 0;
    let mut saturated = false;
    assert(fv.take(0) =~= Seq::<(Seq<char>, Seq<DriftView>)>::empty());
    for i in 0..found.len()
        invariant
            fv == found_views(found@),
            !saturated ==> total == unwritable_total(fv.take(i as int)),
            saturated ==> total == usize::MAX && unwritable_total(fv.take(i as int)) > usize::MAX,
    {
        assert(fv.take(i + 1).drop_last() =~= fv.take(i as int));
        let ghost ds = fv[i as int].1;
        let ghost p = |d: DriftView| d.kind != Kind::Setting;
        assert(ds == drift_views(found@[i as int].1@));
        let n = found[i].1.len();
        assert(ds.take(0) =~= Seq::<DriftView>::empty());
        let mut c: usize = 0;
        for j in 0..n
            invariant
                i < found.len(),
                n == found@[i as int].1.len(),
                ds == drift_views(found@[i as int].1@),
                p == (|d: DriftView| d.kind != Kind::Setting),
                c == ds.take(j as int).filter(p).len(),
                c <= j,
        {
            proof {
                assert(ds.take(j + 1) =~= ds.take(j as int).push(ds[j as int]));
                ds.take(j as int).lemma_filter_push(ds[j as int], p);
                assert(ds[j as int] == found@[i as int].1@[j as int]@);
            }
            if found[i].1[j].kind != Kind::Setting {
                c = c + 1;
            }
        }
        assert(ds.take(n as int) =~= ds);
        if !saturated {
            if c > usize::MAX - total {
                total = usize::MAX;
                saturated = true;
            } else {
                total = total + c;
            }
        }
    }
    assert(fv.take(found.len() as int) =~= fv);
    total
}

/// Decides what follows a plan (`apply == false`) or an apply: a clean
/// fleet succeeds; drift under a plan is reported; an apply needs
/// `--auto-approve`, refuses when an organisation control drifted or when
/// any drift is not a repository setting (the count saturating at
/// `usize::MAX`, which no fleet in memory reaches), and otherwise writes the
/// setting fields of each repository that drifted.
pub fn next_step(
    apply: bool,
    auto_approve: bool,
    org_drift: &Vec<Drift>,
    found: &Vec<(String, Vec<Drift>)>,
) -> (r: Step)
    ensures
        r@ == step_spec(apply, auto_approve, drift_views(org_drift@), found_views(found@)),
{
    let ghost fv = found_views(found@);
    let mut drifted = org_drift.len() > 0;
    let mut i: usize = 0;
    while i < found.len() && !drifted
        invariant
            i <= found.len(),
            fv == found_views(found@),
            drifted ==> any_drift(drift_views(org_drift@), fv),
            !drifted ==> org_drift.len() == 0 && forall|j: int| 0 <= j < i ==> #[trigger] fv[j].1.len() == 0,
        decreases found.len() - i,
    {
        assert(fv[i as int].1.len() == found@[i as int].1.len());
        if found[i].1.len() > 0 {
            drifted = true;
        }
        i += 1;
    }
    if !drifted {
        return Step::Clean;
    }
    if !apply {
        return Step::Report;
    }
    if !auto_approve {
        return Step::NeedsApproval;
    }
    if org_drift.len() > 0 {
        return Step::OrgNotWritten(org_drift.len());
    }
    let unwritable = count_unwritable(found);
    if unwritable > 0 {
        return Step::NotSettings(unwritable);
    }
    let ghost wf = |p: (Seq<char>, Seq<DriftView>)|
        if p.1.len() == 0 {
            None
        } else {
            Some((p.0, p.1.filter_map(|d: DriftView| setting_field(d))))
        };
    let mut writes: Vec<(String, Vec<String>)> = Vec::new();
    let ghost wv = |w: Seq<(String, Vec<String>)>| w.map_values(|p: (String, Vec<String>)| (p.0@, string_views(p.1@)));
    assert(fv.take(0) =~= Seq::<(Seq<char>, Seq<DriftView>)>::empty());
    assert(wv(writes@) =~= Seq::<(Seq<char>, Seq<Seq<char>>)>::empty());
    for k in 0..found.len()
        invariant
            fv == found_views(found@),
            wf == (|p: (Seq<char>, Seq<DriftView>)|
                if p.1.len() == 0 {
                    None
                } else {
                    Some((p.0, p.1.filter_map(|d: DriftView| setting_field(d))))
                }),
            wv == (|w: Seq<(String, Vec<String>)>| w.map_values(|p: (String, Vec<String>)| (p.0@, string_views(p.1@)))),
            wv(writes@) == fv.take(k as int).filter_map(wf),
    {
        proof {
            fv.lemma_filter_map_take_succ(wf, k as int);
            assert(fv[k as int] == (found@[k as int].0@, drift_views(found@[k as int].1@)));
        }
        if found[k].1.len() > 0 {
            let fields = settings_fields(&found[k].1);
            let ghost prev = writes@;
            let entry = (found[k].0.clone(), fields);
            let ghost ev = (entry.0@, string_views(entry.1@));
            writes.push(entry);
            assert(wv(writes@) =~= wv(prev).push(ev));
        }
        assert(wv(writes@) =~= fv.take(k + 1).filter_map(wf));
    }
    assert(fv.take(found.len() as int) =~= fv);
    Step::Write(writes)
}

/// No drift not a setting is left uncounted.
proof fn lemma_no_unwritable(found: Seq<(Seq<char>, Seq<DriftView>)>)
    requires
        unwritable_total(found) == 0,
    ensures
        forall|i: int, j: int|
            0 <= i < found.len() && 0 <= j < found[i].1.len() ==> (#[trigger] found[i].1[j]).kind
                == Kind::Setting,
    decreases found.len(),
{
    if found.len() > 0 {
        let init = found.drop_last();
        lemma_no_unwritable(init);
        let ds = found.last().1;
        let p = |d: DriftView| d.kind != Kind::Setting;
        assert forall|j: int| 0 <= j < ds.len() implies ds[j].kind == Kind::Setting by {
            if p(ds[j]) {
                ds.lemma_filter_contains(p, j);
            }
        }
        assert forall|i: int, j: int|
            0 <= i < found.len() && 0 <= j < found[i].1.len() implies (#[trigger] found[i].1[j]).kind
                == Kind::Setting by {
            if i < init.len() {
                assert(found[i] == init[i]);
            }
        }
    }
}

/// An apply writes repository settings only, and only when nothing else
/// drifted: when it writes, no organisation control drifted, every drift
/// found is a repository setting, and what it writes for each repository
/// that drifted is exactly `key=desired` for each of its drifts.
pub proof fn lemma_apply_writes_only_settings(
    org: Seq<DriftView>,
    found: Seq<(Seq<char>, Seq<DriftView>)>,
)
    ensures
        step_spec(true, true, org, found) is Write ==> {
            &&& org.len() == 0
            &&& forall|i: int, j: int|
                0 <= i < found.len() && 0 <= j < found[i].1.len() ==> (#[trigger] found[i].1[j]).kind
                    == Kind::Setting
            &&& step_spec(true, true, org, found) == StepView::Write(writes_spec(found))
        },
{
    if step_spec(true, true, org, found) is Write {
        lemma_no_unwritable(found);
    }
}

/// The repositories that drifted, in order, with their drift.
pub open spec fn drifted(found: Seq<(Seq<char>, Seq<DriftView>)>) -> Seq<(Seq<char>, Seq<DriftView>)> {
    found.filter(|p: (Seq<char>, Seq<DriftView>)| p.1.len() > 0)
}

/// The fields of setting drifts are `key=desired`, one per drift, in order.
proof fn lemma_setting_fields_each(ds: Seq<DriftView>)
    requires
        forall|j: int| 0 <= j < ds.len() ==> (#[trigger] ds[j]).kind == Kind::Setting,
    ensures
        ds.filter_map(|d: DriftView| setting_field(d)).len() == ds.len(),
        forall|j: int| 0 <= j < ds.len() ==> ds.filter_map(|d: DriftView| setting_field(d))[j]
            == (#[trigger] ds[j]).key + "="@ + ds[j].desired,
    decreases ds.len(),
{
    let f = |d: DriftView| setting_field(d);
    if ds.len() > 0 {
        let init = ds.drop_last();
        assert forall|j: int| 0 <= j < init.len() implies (#[trigger] init[j]).kind == Kind::Setting by {
            assert(init[j] == ds[j]);
        }
        lemma_setting_fields_each(init);
        let x = ds.last();
        assert(x.kind == Kind::Setting);
        let r0 = init.filter_map(f);
        assert(ds.filter_map(f) == r0 + seq![x.key + "="@ + x.desired]);
        assert forall|j: int| 0 <= j < ds.len() implies ds.filter_map(f)[j] == (#[trigger] ds[j]).key + "="@ + ds[j].desired by {
            if j < init.len() {
                assert(init[j] == ds[j]);
                assert(ds.filter_map(f)[j] == r0[j]);
            }
        }
    }
}

/// With every drift a setting, the writes pair each drifted repository, in
/// order, with the fields of its drifts.
proof fn lemma_writes_follow_drifted(found: Seq<(Seq<char>, Seq<DriftView>)>)
    requires
        forall|i: int, j: int|
            0 <= i < found.len() && 0 <= j < found[i].1.len() ==> (#[trigger] found[i].1[j]).kind
                == Kind::Setting,
    ensures
        writes_spec(found).len() == drifted(found).len(),
        forall|i: int| 0 <= i < writes_spec(found).len() ==> (#[trigger] writes_spec(found)[i]).0 == drifted(found)[i].0
            && writes_spec(found)[i].1 == drifted(found)[i].1.filter_map(|d: DriftView| setting_field(d)),
    decreases found.len(),
{
    if found.len() > 0 {
        let init = found.drop_last();
        let x = found.last();
        assert forall|i: int, j: int|
            0 <= i < init.len() && 0 <= j < init[i].1.len() implies (#[trigger] init[i].1[j]).kind == Kind::Setting by {
            assert(init[i] == found[i]);
        }
        lemma_writes_follow_drifted(init);
        assert(init.push(x) =~= found);
        init.lemma_filter_push(x, |p: (Seq<char>, Seq<DriftView>)| p.1.len() > 0);
        let w0 = writes_spec(init);
        let d0 = drifted(init);
        if x.1.len() > 0 {
            let e = (x.0, x.1.filter_map(|d: DriftView| setting_field(d)));
            assert(writes_spec(found) == w0 + seq![e]);
            assert(drifted(found) == d0.push(x));
            assert forall|i: int| 0 <= i < writes_spec(found).len() implies (#[trigger] writes_spec(found)[i]).0
                == drifted(found)[i].0 && writes_spec(found)[i].1 == drifted(found)[i].1.filter_map(
                |d: DriftView| setting_field(d),
            ) by {
                if i < w0.len() {
                    assert(writes_spec(found)[i] == w0[i]);
                    assert(drifted(found)[i] == d0[i]);
                }
            }
        } else {
            assert(writes_spec(found) == w0);
            assert(drifted(found) == d0);
        }
    }
}

/// What an apply writes: for every repository that drifted, and only
/// those, in order, one `key=desired` field for each of its drifts, in
/// order -- so as many fields as it has drifts, and none left unwritten.
pub proof fn lemma_apply_writes_every_drift(org: Seq<DriftView>, found: Seq<(Seq<char>, Seq<DriftView>)>)
    ensures
        step_spec(true, true, org, found) matches StepView::Write(w) ==> {
            &&& w.len() == drifted(found).len()
            &&& forall|i: int|
                0 <= i < w.len() ==> (#[trigger] w[i]).0 == drifted(found)[i].0 && w[i].1.len()
                    == drifted(found)[i].1.len()
            &&& forall|i: int, j: int|
                0 <= i < w.len() && 0 <= j < w[i].1.len() ==> #[trigger] w[i].1[j] == drifted(found)[i].1[j].key
                    + "="@ + drifted(found)[i].1[j].desired
        },
{
    if step_spec(true, true, org, found) is Write {
        lemma_no_unwritable(found);
        lemma_writes_follow_drifted(found);
        let w = writes_spec(found);
        let d = drifted(found);
        let p = |q: (Seq<char>, Seq<DriftView>)| q.1.len() > 0;
        assert forall|i: int| 0 <= i < w.len() implies (#[trigger] w[i]).0 == d[i].0 && w[i].1.len() == d[i].1.len()
            && forall|j: int| 0 <= j < w[i].1.len() ==> #[trigger] w[i].1[j] == d[i].1[j].key + "="@ + d[i].1[j].desired by {
            assert(d.contains(d[i]));
            found.lemma_filter_contains_rev(p, d[i]);
            let k = choose|k: int| 0 <= k < found.len() && found[k] == d[i];
            assert forall|j: int| 0 <= j < d[i].1.len() implies (#[trigger] d[i].1[j]).kind == Kind::Setting by {
                assert(found[k].1[j].kind == Kind::Setting);
            }
            lemma_setting_fields_each(d[i].1);
        }
    }
}

/// A plan never passes drift: it is clean exactly when nothing drifted, and
/// otherwise reports, which fails the run.
pub proof fn lemma_plan_fails_on_drift(
    auto_approve: bool,
    org: Seq<DriftView>,
    found: Seq<(Seq<char>, Seq<DriftView>)>,
)
    ensures
        step_spec(false, auto_approve, org, found) == if any_drift(org, found) {
            StepView::Report
        } else {
            StepView::Clean
        },
{
}

} // verus!
