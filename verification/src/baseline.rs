//! The desired state, and the difference between it and a machine-readable
//! reading of what a repository actually has.
//!
//! Pure: nothing here reaches the network. The binary fetches the readings
//! and hands them in, so every rule below is exercised by a test that
//! constructs its input literally.
use vstd::prelude::*;
use std::collections::BTreeMap;
use crate::reading::{reading_get, reading_view};
use crate::text::{
    char_rows, chars_are, chars_of, decimal, decimal_chars, extend_chars, is_word, lines_of, split_lines,
    split_on, contains_row, split_words, string_of, string_views, words_of, pieces,
};

pub mod offboard;

pub use self::offboard::offboard;

verus! {

/// What a drift is about, and so which endpoint could correct it. Only a
/// repository setting can be written by the repository settings endpoint.
#[derive(Debug, Clone, Copy, PartialEq, Eq, Structural)]
pub enum Kind {
    Setting,
    Org,
    Present,
    Rule,
    File,
}

/// What the repositories should look like.
#[derive(Debug)]
pub struct Baseline {
    pub repos: Vec<String>,
    pub settings: Vec<(String, String)>,
    pub org: Vec<(String, String)>,
    pub present: Vec<Expected>,
    pub rules: Vec<(String, String)>,
    pub files: Vec<TrackedFile>,
    pub pending: Vec<String>,
}

/// An object whose body this format cannot express -- a ruleset, a security
/// configuration -- asserted to exist and to be in a given state.
#[derive(Debug)]
pub struct Expected {
    pub kind: String,
    pub name: String,
    pub state: String,
}

/// A file pinned by git blob hash, for the named repositories, or for every
/// repository when `scope` is empty.
#[derive(Debug)]
pub struct TrackedFile {
    pub path: String,
    pub blob: String,
    pub scope: Vec<String>,
}

/// One thing that does not match.
#[derive(Debug)]
pub struct Drift {
    pub key: String,
    pub desired: String,
    pub actual: String,
    pub kind: Kind,
}

#[verifier::ext_equal]
pub struct ExpectedView {
    pub kind: Seq<char>,
    pub name: Seq<char>,
    pub state: Seq<char>,
}

#[verifier::ext_equal]
pub struct FileView {
    pub path: Seq<char>,
    pub blob: Seq<char>,
    pub scope: Seq<Seq<char>>,
}

#[verifier::ext_equal]
pub struct DriftView {
    pub key: Seq<char>,
    pub desired: Seq<char>,
    pub actual: Seq<char>,
    pub kind: Kind,
}

#[verifier::ext_equal]
pub struct BaselineView {
    pub repos: Seq<Seq<char>>,
    pub settings: Seq<(Seq<char>, Seq<char>)>,
    pub org: Seq<(Seq<char>, Seq<char>)>,
    pub present: Seq<ExpectedView>,
    pub rules: Seq<(Seq<char>, Seq<char>)>,
    pub files: Seq<FileView>,
    pub pending: Seq<Seq<char>>,
}

impl View for Expected {
    type V = ExpectedView;

    open spec fn view(&self) -> ExpectedView {
        ExpectedView { kind: self.kind@, name: self.name@, state: self.state@ }
    }
}

impl View for TrackedFile {
    type V = FileView;

    open spec fn view(&self) -> FileView {
        FileView { path: self.path@, blob: self.blob@, scope: string_views(self.scope@) }
    }
}

impl View for Drift {
    type V = DriftView;

    open spec fn view(&self) -> DriftView {
        DriftView { key: self.key@, desired: self.desired@, actual: self.actual@, kind: self.kind }
    }
}

/// The views of a vector of string pairs.
pub open spec fn pair_views(v: Seq<(String, String)>) -> Seq<(Seq<char>, Seq<char>)> {
    v.map_values(|p: (String, String)| (p.0@, p.1@))
}

/// The views of a vector of drifts.
pub open spec fn drift_views(v: Seq<Drift>) -> Seq<DriftView> {
    v.map_values(|d: Drift| d@)
}

impl View for Baseline {
    type V = BaselineView;

    open spec fn view(&self) -> BaselineView {
        BaselineView {
            repos: string_views(self.repos@),
            settings: pair_views(self.settings@),
            org: pair_views(self.org@),
            present: self.present@.map_values(|e: Expected| e@),
            rules: pair_views(self.rules@),
            files: self.files@.map_values(|f: TrackedFile| f@),
            pending: string_views(self.pending@),
        }
    }
}

/// The baseline with nothing in it.
pub open spec fn empty_view() -> BaselineView {
    BaselineView {
        repos: seq![],
        settings: seq![],
        org: seq![],
        present: seq![],
        rules: seq![],
        files: seq![],
        pending: seq![],
    }
}

impl Default for Baseline {
    fn default() -> (b: Baseline)
        ensures
            b@ == empty_view(),
    {
        let b = Baseline {
            repos: Vec::new(),
            settings: Vec::new(),
            org: Vec::new(),
            present: Vec::new(),
            rules: Vec::new(),
            files: Vec::new(),
            pending: Vec::new(),
        };
        assert(b@ =~= empty_view());
        b
    }
}

/// What one line of the baseline says.
pub enum Directive {
    /// Blank, or a comment.
    Blank,
    Repo(Seq<char>),
    Setting(Seq<char>, Seq<char>),
    Org(Seq<char>, Seq<char>),
    Present(Seq<char>, Seq<char>, Seq<char>),
    Rule(Seq<char>, Seq<char>),
    File(Seq<char>, Seq<char>, Seq<Seq<char>>),
    Pending(Seq<char>),
    /// A `present` line with a kind and a name but no state.
    NeedsState,
    /// A line whose first field names no directive of the arity it has.
    Unknown(Seq<char>),
}

/// The directive a line's fields spell. A line is skipped when it has no
/// fields or its first field starts with `#`. `repo` takes exactly one
/// argument; `setting`, `org` and `rule` take two and ignore any more;
/// `present` takes three; `file` takes a path, a blob hash and any number of
/// repositories; `pending` takes a key and ignores the rest.
pub open spec fn directive(w: Seq<Seq<char>>) -> Directive {
    if w.len() == 0 || w[0][0] == '#' {
        Directive::Blank
    } else if w[0] == "repo"@ && w.len() == 2 {
        Directive::Repo(w[1])
    } else if w[0] == "setting"@ && w.len() >= 3 {
        Directive::Setting(w[1], w[2])
    } else if w[0] == "org"@ && w.len() >= 3 {
        Directive::Org(w[1], w[2])
    } else if w[0] == "present"@ && w.len() >= 3 {
        if w.len() >= 4 {
            Directive::Present(w[1], w[2], w[3])
        } else {
            Directive::NeedsState
        }
    } else if w[0] == "rule"@ && w.len() >= 3 {
        Directive::Rule(w[1], w[2])
    } else if w[0] == "file"@ && w.len() >= 3 {
        Directive::File(w[1], w[2], w.skip(3))
    } else if w[0] == "pending"@ && w.len() >= 2 {
        Directive::Pending(w[1])
    } else {
        Directive::Unknown(w[0])
    }
}

/// `line <n>: unknown directive `<word>``
pub open spec fn unknown_message(n: nat, word: Seq<char>) -> Seq<char> {
    "line "@ + decimal(n) + ": unknown directive `"@ + word + "`"@
}

/// `line <n>: `present` needs a state`
pub open spec fn needs_state_message(n: nat) -> Seq<char> {
    "line "@ + decimal(n) + ": `present` needs a state"@
}

/// The baseline after line `n` (counted from one) has been read.
pub open spec fn add_line(b: BaselineView, d: Directive, n: nat) -> Result<BaselineView, Seq<char>> {
    match d {
        Directive::Blank => Ok(b),
        Directive::Repo(r) => Ok(BaselineView { repos: b.repos.push(r), ..b }),
        Directive::Setting(k, v) => Ok(BaselineView { settings: b.settings.push((k, v)), ..b }),
        Directive::Org(k, v) => Ok(BaselineView { org: b.org.push((k, v)), ..b }),
        Directive::Present(k, m, s) => Ok(
            BaselineView { present: b.present.push(ExpectedView { kind: k, name: m, state: s }), ..b },
        ),
        Directive::Rule(t, s) => Ok(BaselineView { rules: b.rules.push((t, s)), ..b }),
        Directive::File(p, h, sc) => Ok(
            BaselineView { files: b.files.push(FileView { path: p, blob: h, scope: sc }), ..b },
        ),
        Directive::Pending(k) => Ok(BaselineView { pending: b.pending.push(k), ..b }),
        Directive::NeedsState => Err(needs_state_message(n)),
        Directive::Unknown(w) => Err(unknown_message(n, w)),
    }
}

/// The baseline the lines spell, or the message for the first line that
/// spells nothing.
pub open spec fn parse_lines(ls: Seq<Seq<char>>) -> Result<BaselineView, Seq<char>>
    decreases ls.len(),
{
    if ls.len() == 0 {
        Ok(empty_view())
    } else {
        match parse_lines(ls.drop_last()) {
            Err(e) => Err(e),
            Ok(b) => add_line(b, directive(words_of(ls.last())), ls.len()),
        }
    }
}

/// The baseline a text spells.
pub open spec fn parse_spec(text: Seq<char>) -> Result<BaselineView, Seq<char>> {
    parse_lines(lines_of(text))
}

fn unknown_directive(n: usize, word: &Vec<char>) -> (s: String)
    ensures
        s@ == unknown_message(n as nat, word@),
{
    let mut v = chars_of("line ");
    extend_chars(&mut v, &decimal_chars(n));
    extend_chars(&mut v, &chars_of(": unknown directive `"));
    extend_chars(&mut v, word);
    extend_chars(&mut v, &chars_of("`"));
    string_of(&v)
}

fn needs_state(n: usize) -> (s: String)
    ensures
        s@ == needs_state_message(n as nat),
{
    let mut v = chars_of("line ");
    extend_chars(&mut v, &decimal_chars(n));
    extend_chars(&mut v, &chars_of(": `present` needs a state"));
    string_of(&v)
}

/// Reads one line's fields into the baseline.
fn read_line(b: &mut Baseline, words: &Vec<Vec<char>>, n: usize) -> (r: Result<(), String>)
    requires
        forall|i: int| 0 <= i < words.len() ==> is_word(#[trigger] words@[i]@),
    ensures
        match add_line(old(b)@, directive(char_rows(words@)), n as nat) {
            Ok(m) => r is Ok && final(b)@ == m,
            Err(e) => r matches Err(x) && x@ == e,
        },
{
    let ghost w = char_rows(words@);
    if words.len() == 0 {
        return Ok(());
    }
    assert(w[0] == words@[0]@);
    assert(is_word(words@[0]@));
    if words[0][0] == '#' {
        assert(w[0][0] == '#');
        assert(directive(w) is Blank);
        return Ok(());
    }
    let len = words.len();
    assert(len >= 2 ==> w[1] == words@[1]@);
    assert(len >= 3 ==> w[2] == words@[2]@);
    assert(len >= 4 ==> w[3] == words@[3]@);
    if len == 2 && chars_are(&words[0], "repo") {
        let r = string_of(&words[1]);
        let ghost rv = r@;
        b.repos.push(r);
        assert(string_views(b.repos@) =~= string_views(old(b).repos@).push(rv));
        assert(b@ =~= BaselineView { repos: old(b)@.repos.push(rv), ..old(b)@ });
        return Ok(());
    }
    if len >= 3 && chars_are(&words[0], "setting") {
        let p = (string_of(&words[1]), string_of(&words[2]));
        let ghost pv = (p.0@, p.1@);
        b.settings.push(p);
        assert(pair_views(b.settings@) =~= pair_views(old(b).settings@).push(pv));
        assert(b@ =~= BaselineView { settings: old(b)@.settings.push(pv), ..old(b)@ });
        return Ok(());
    }
    if len >= 3 && chars_are(&words[0], "org") {
        let p = (string_of(&words[1]), string_of(&words[2]));
        let ghost pv = (p.0@, p.1@);
        b.org.push(p);
        assert(pair_views(b.org@) =~= pair_views(old(b).org@).push(pv));
        assert(b@ =~= BaselineView { org: old(b)@.org.push(pv), ..old(b)@ });
        return Ok(());
    }
    if len >= 3 && chars_are(&words[0], "present") {
        if len < 4 {
            return Err(needs_state(n));
        }
        let e = Expected {
            kind: string_of(&words[1]),
            name: string_of(&words[2]),
            state: string_of(&words[3]),
        };
        let ghost ev = e@;
        b.present.push(e);
        assert(b.present@.map_values(|e: Expected| e@) =~= old(b).present@.map_values(
            |e: Expected| e@,
        ).push(ev));
        assert(b@ =~= BaselineView { present: old(b)@.present.push(ev), ..old(b)@ });
        return Ok(());
    }
    if len >= 3 && chars_are(&words[0], "rule") {
        let p = (string_of(&words[1]), string_of(&words[2]));
        let ghost pv = (p.0@, p.1@);
        b.rules.push(p);
        assert(pair_views(b.rules@) =~= pair_views(old(b).rules@).push(pv));
        assert(b@ =~= BaselineView { rules: old(b)@.rules.push(pv), ..old(b)@ });
        return Ok(());
    }
    if len >= 3 && chars_are(&words[0], "file") {
        let mut scope: Vec<String> = Vec::new();
        let mut i: usize = 3;
        while i < len
            invariant
                3 <= i <= len,
                len == words.len(),
                w == char_rows(words@),
                string_views(scope@) == w.subrange(3, i as int),
            decreases len - i,
        {
            let s = string_of(&words[i]);
            assert(w[i as int] == words@[i as int]@);
            let ghost prev = scope@;
            let ghost sv = s@;
            scope.push(s);
            assert(string_views(scope@) =~= string_views(prev).push(sv));
            assert(w.subrange(3, i + 1) =~= w.subrange(3, i as int).push(w[i as int]));
            assert(string_views(scope@) =~= w.subrange(3, i + 1));
            i += 1;
        }
        assert(w.subrange(3, len as int) =~= w.skip(3));
        let f = TrackedFile { path: string_of(&words[1]), blob: string_of(&words[2]), scope };
        let ghost fv = f@;
        b.files.push(f);
        assert(b.files@.map_values(|f: TrackedFile| f@) =~= old(b).files@.map_values(
            |f: TrackedFile| f@,
        ).push(fv));
        assert(b@ =~= BaselineView { files: old(b)@.files.push(fv), ..old(b)@ });
        return Ok(());
    }
    if len >= 2 && chars_are(&words[0], "pending") {
        let k = string_of(&words[1]);
        let ghost kv = k@;
        b.pending.push(k);
        assert(string_views(b.pending@) =~= string_views(old(b).pending@).push(kv));
        assert(b@ =~= BaselineView { pending: old(b)@.pending.push(kv), ..old(b)@ });
        return Ok(());
    }
    Err(unknown_directive(n, &words[0]))
}

/// One directive per line, `<kind> <argument...>` -- readable without a
/// parser and diffable without a tool.
pub fn parse(text: &str) -> (r: Result<Baseline, String>)
    ensures
        match r {
            Ok(b) => parse_spec(text@) == Ok::<BaselineView, Seq<char>>(b@),
            Err(e) => parse_spec(text@) == Err::<BaselineView, Seq<char>>(e@),
        },
{
    let chars = chars_of(text);
    let lines = split_lines(&chars);
    let ghost ls = char_rows(lines@);
    let mut b = Baseline::default();
    let mut n: usize = 0;
    assert(ls.take(0) =~= Seq::<Seq<char>>::empty());
    while n < lines.len()
        invariant
            n <= lines.len(),
            ls == char_rows(lines@),
            ls == lines_of(text@),
            parse_lines(ls.take(n as int)) == Ok::<BaselineView, Seq<char>>(b@),
        decreases lines.len() - n,
    {
        let words = split_words(&lines[n]);
        assert(ls.take(n + 1).drop_last() =~= ls.take(n as int));
        assert(ls.take(n + 1).last() == lines@[n as int]@);
        let res = read_line(&mut b, &words, n + 1);
        if let Err(e) = res {
            proof {
                lemma_parse_error_sticks(ls, n + 1);
            }
            return Err(e);
        }
        n += 1;
    }
    assert(ls.take(n as int) =~= ls);
    Ok(b)
}

/// Once a prefix of the lines fails, the whole text fails with the same
/// message.
proof fn lemma_parse_error_sticks(ls: Seq<Seq<char>>, k: int)
    requires
        0 <= k <= ls.len(),
        parse_lines(ls.take(k)) is Err,
    ensures
        parse_lines(ls) == parse_lines(ls.take(k)),
    decreases ls.len() - k,
{
    if k < ls.len() {
        assert(ls.take(k + 1).drop_last() =~= ls.take(k));
        lemma_parse_error_sticks(ls, k + 1);
    } else {
        assert(ls.take(k) =~= ls);
    }
}

/// Whether the reading carries `p.0` and holds the value `p.1` under it.
pub open spec fn holds(actual: Map<Seq<char>, Seq<char>>, p: (Seq<char>, Seq<char>)) -> bool {
    actual.contains_key(p.0) && actual[p.0] == p.1
}

/// The drift for one wanted `(key, value)`. A key the reading does not carry
/// is always drift, reported as `missing`, whatever value was wanted; a key
/// it carries is drift when its value differs.
pub open spec fn drift_of(
    actual: Map<Seq<char>, Seq<char>>,
    missing: Seq<char>,
    kind: Kind,
    p: (Seq<char>, Seq<char>),
) -> Option<DriftView> {
    if !actual.contains_key(p.0) {
        Some(DriftView { key: p.0, desired: p.1, actual: missing, kind })
    } else if actual[p.0] != p.1 {
        Some(DriftView { key: p.0, desired: p.1, actual: actual[p.0], kind })
    } else {
        None
    }
}

/// Every wanted value the reading does not hold, in the baseline's order.
pub open spec fn compare_spec(
    wanted: Seq<(Seq<char>, Seq<char>)>,
    actual: Map<Seq<char>, Seq<char>>,
    missing: Seq<char>,
    kind: Kind,
) -> Seq<DriftView> {
    wanted.filter_map(|p: (Seq<char>, Seq<char>)| drift_of(actual, missing, kind, p))
}

/// What a setting the reading does not carry is reported as.
pub open spec fn unreadable() -> Seq<char> {
    "<unreadable>"@
}

/// What an object or a file the reading does not carry is reported as: a
/// different failure from a setting that could not be read.
pub open spec fn absent() -> Seq<char> {
    "<absent>"@
}

fn compare(wanted: &Vec<(String, String)>, actual: &BTreeMap<String, String>, missing: &str, kind: Kind) -> (r: Vec<Drift>)
    ensures
        drift_views(r@) == compare_spec(pair_views(wanted@), reading_view(actual), missing@, kind),
{
    let ghost w = pair_views(wanted@);
    let ghost f = |p: (Seq<char>, Seq<char>)| drift_of(reading_view(actual), missing@, kind, p);
    let mut out: Vec<Drift> = Vec::new();
    assert(w.take(0) =~= Seq::<(Seq<char>, Seq<char>)>::empty());
    assert(drift_views(out@) =~= Seq::<DriftView>::empty());
    for i in 0..wanted.len()
        invariant
            w == pair_views(wanted@),
            f == (|p: (Seq<char>, Seq<char>)| drift_of(reading_view(actual), missing@, kind, p)),
            drift_views(out@) == w.take(i as int).filter_map(f),
    {
        let key = &wanted[i].0;
        let desired = &wanted[i].1;
        proof {
            w.lemma_filter_map_take_succ(f, i as int);
            assert(w[i as int] == (key@, desired@));
        }
        match reading_get(actual, key) {
            None => {
                let d = Drift { key: key.clone(), desired: desired.clone(), actual: missing.to_owned(), kind };
                let ghost dv = d@;
                out.push(d);
                assert(drift_views(out@) =~= drift_views(out@.drop_last()).push(dv));
            },
            Some(seen) => {
                if !(*seen == *desired) {
                    let d = Drift { key: key.clone(), desired: desired.clone(), actual: seen.clone(), kind };
                    let ghost dv = d@;
                    out.push(d);
                    assert(drift_views(out@) =~= drift_views(out@.drop_last()).push(dv));
                }
            },
        }
        assert(drift_views(out@) =~= w.take(i + 1).filter_map(f));
    }
    assert(w.take(wanted.len() as int) =~= w);
    out
}

/// A setting the reading does not carry counts as drift. Treating it as
/// satisfied is how an audit reports a clean fleet it never looked at.
pub fn drift(baseline: &Baseline, actual: &BTreeMap<String, String>) -> (r: Vec<Drift>)
    ensures
        drift_views(r@) == compare_spec(baseline@.settings, reading_view(actual), unreadable(), Kind::Setting),
        forall|i: int| 0 <= i < r.len() ==> (#[trigger] r@[i]).kind == Kind::Setting,
{
    let r = compare(&baseline.settings, actual, "<unreadable>", Kind::Setting);
    proof { lemma_drift_kinds(baseline@.settings, reading_view(actual), unreadable(), Kind::Setting, r@); }
    r
}

/// Organisation-wide settings. Same comparison as the repository one, over a
/// different reading.
pub fn drift_org(baseline: &Baseline, actual: &BTreeMap<String, String>) -> (r: Vec<Drift>)
    ensures
        drift_views(r@) == compare_spec(baseline@.org, reading_view(actual), unreadable(), Kind::Org),
        forall|i: int| 0 <= i < r.len() ==> (#[trigger] r@[i]).kind == Kind::Org,
{
    let r = compare(&baseline.org, actual, "<unreadable>", Kind::Org);
    proof { lemma_drift_kinds(baseline@.org, reading_view(actual), unreadable(), Kind::Org, r@); }
    r
}

/// Every drift `compare_spec` reports carries the kind it was asked for.
proof fn lemma_drift_kinds(
    wanted: Seq<(Seq<char>, Seq<char>)>,
    actual: Map<Seq<char>, Seq<char>>,
    missing: Seq<char>,
    kind: Kind,
    r: Seq<Drift>,
)
    requires
        drift_views(r) == compare_spec(wanted, actual, missing, kind),
    ensures
        forall|i: int| 0 <= i < r.len() ==> (#[trigger] r[i]).kind == kind,
{
    let f = |p: (Seq<char>, Seq<char>)| drift_of(actual, missing, kind, p);
    lemma_filter_map_kinds(wanted, f, kind);
    assert forall|i: int| 0 <= i < r.len() implies (#[trigger] r[i]).kind == kind by {
        assert(drift_views(r)[i] == r[i]@);
    }
}

/// When every produced drift has `kind`, so has everything `filter_map`
/// keeps.
proof fn lemma_filter_map_kinds<A>(s: Seq<A>, f: spec_fn(A) -> Option<DriftView>, kind: Kind)
    requires
        forall|a: A| (#[trigger] f(a)) matches Some(d) ==> d.kind == kind,
    ensures
        forall|i: int| 0 <= i < s.filter_map(f).len() ==> (#[trigger] s.filter_map(f)[i]).kind == kind,
    decreases s.len(),
{
    if s.len() > 0 {
        lemma_filter_map_kinds(s.drop_last(), f, kind);
        let rest = s.drop_last().filter_map(f);
        match f(s.last()) {
            Some(d) => {
                assert(s.filter_map(f) == rest + seq![d]);
                assert forall|i: int| 0 <= i < s.filter_map(f).len() implies (#[trigger] s.filter_map(f)[i]).kind == kind by {
                    if i < rest.len() {
                        assert(s.filter_map(f)[i] == rest[i]);
                    }
                }
            },
            None => {},
        }
    }
}

/// The objects the baseline asserts, keyed `<kind>/<name>` so a ruleset and
/// a configuration cannot collide.
pub open spec fn present_wanted(p: Seq<ExpectedView>) -> Seq<(Seq<char>, Seq<char>)> {
    p.map_values(|e: ExpectedView| (e.kind + "/"@ + e.name, e.state))
}

/// Keyed `<kind>/<name>` so a ruleset and a configuration cannot collide.
/// An object the reading does not carry is drift, reported as `<absent>`,
/// whatever state it was expected in: a deleted object is a failure.
pub fn drift_present(baseline: &Baseline, actual: &BTreeMap<String, String>) -> (r: Vec<Drift>)
    ensures
        drift_views(r@) == compare_spec(present_wanted(baseline@.present), reading_view(actual), absent(), Kind::Present),
        forall|i: int| 0 <= i < r.len() ==> (#[trigger] r@[i]).kind == Kind::Present,
{
    let mut wanted: Vec<(String, String)> = Vec::new();
    let ghost pv = baseline@.present;
    for i in 0..baseline.present.len()
        invariant
            pv == baseline@.present,
            pair_views(wanted@) == present_wanted(pv.take(i as int)),
    {
        let e = &baseline.present[i];
        let mut key = chars_of(e.kind.as_str());
        extend_chars(&mut key, &chars_of("/"));
        extend_chars(&mut key, &chars_of(e.name.as_str()));
        let p = (string_of(&key), e.state.clone());
        let ghost v = (p.0@, p.1@);
        let ghost prev = wanted@;
        wanted.push(p);
        assert(pv[i as int] == e@);
        assert(v == (e@.kind + "/"@ + e@.name, e@.state));
        assert(pair_views(wanted@) =~= pair_views(prev).push(v));
        assert(pv.take(i + 1) =~= pv.take(i as int).push(pv[i as int]));
        assert(present_wanted(pv.take(i + 1)) =~= present_wanted(pv.take(i as int)).push(v));
    }
    assert(pv.take(baseline.present.len() as int) =~= pv);
    let r = compare(&wanted, actual, "<absent>", Kind::Present);
    proof { lemma_drift_kinds(present_wanted(pv), reading_view(actual), absent(), Kind::Present, r@); }
    r
}

/// The drift for one wanted branch rule `(type, source)`. The reading maps
/// each rule type in effect to its sources, comma-separated; the rule holds
/// when its source is one of them.
pub open spec fn rule_drift(actual: Map<Seq<char>, Seq<char>>, p: (Seq<char>, Seq<char>)) -> Option<DriftView> {
    if !actual.contains_key(p.0) {
        Some(DriftView { key: p.0, desired: p.1, actual: absent(), kind: Kind::Rule })
    } else if !pieces(actual[p.0], ',').contains(p.1) {
        Some(DriftView { key: p.0, desired: p.1, actual: actual[p.0], kind: Kind::Rule })
    } else {
        None
    }
}

/// Every wanted rule that is not in effect from the wanted source.
pub open spec fn rules_spec(rules: Seq<(Seq<char>, Seq<char>)>, actual: Map<Seq<char>, Seq<char>>) -> Seq<DriftView> {
    rules.filter_map(|p: (Seq<char>, Seq<char>)| rule_drift(actual, p))
}

/// Branch rules that must be in effect, and where they must come from. A
/// rule not in effect at all is reported as `<absent>`.
pub fn drift_rules(baseline: &Baseline, actual: &BTreeMap<String, String>) -> (r: Vec<Drift>)
    ensures
        drift_views(r@) == rules_spec(baseline@.rules, reading_view(actual)),
        forall|i: int| 0 <= i < r.len() ==> (#[trigger] r@[i]).kind == Kind::Rule,
{
    let ghost w = baseline@.rules;
    let ghost f = |p: (Seq<char>, Seq<char>)| rule_drift(reading_view(actual), p);
    let mut out: Vec<Drift> = Vec::new();
    assert(w.take(0) =~= Seq::<(Seq<char>, Seq<char>)>::empty());
    assert(drift_views(out@) =~= Seq::<DriftView>::empty());
    for i in 0..baseline.rules.len()
        invariant
            w == baseline@.rules,
            f == (|p: (Seq<char>, Seq<char>)| rule_drift(reading_view(actual), p)),
            drift_views(out@) == w.take(i as int).filter_map(f),
    {
        let kind = &baseline.rules[i].0;
        let source = &baseline.rules[i].1;
        proof {
            w.lemma_filter_map_take_succ(f, i as int);
            assert(w[i as int] == (kind@, source@));
        }
        match reading_get(actual, kind) {
            None => {
                let d = Drift { key: kind.clone(), desired: source.clone(), actual: "<absent>".to_owned(), kind: Kind::Rule };
                let ghost dv = d@;
                out.push(d);
                assert(drift_views(out@) =~= drift_views(out@.drop_last()).push(dv));
            },
            Some(seen) => {
                let sources = split_on(&chars_of(seen.as_str()), ',');
                if !contains_row(&sources, &chars_of(source.as_str())) {
                    let d = Drift { key: kind.clone(), desired: source.clone(), actual: seen.clone(), kind: Kind::Rule };
                    let ghost dv = d@;
                    out.push(d);
                    assert(drift_views(out@) =~= drift_views(out@.drop_last()).push(dv));
                }
            },
        }
        assert(drift_views(out@) =~= w.take(i + 1).filter_map(f));
    }
    assert(w.take(baseline.rules.len() as int) =~= w);
    proof {
        lemma_filter_map_kinds(w, f, Kind::Rule);
        assert forall|i: int| 0 <= i < out.len() implies (#[trigger] out@[i]).kind == Kind::Rule by {
            assert(drift_views(out@)[i] == out@[i]@);
        }
    }
    out
}

/// Whether a tracked file applies to a repository: unscoped, or scoped to
/// it among others.
pub open spec fn in_scope(f: FileView, repo: Seq<char>) -> bool {
    f.scope.len() == 0 || f.scope.contains(repo)
}

/// The drift for one tracked file in one repository.
pub open spec fn file_drift(actual: Map<Seq<char>, Seq<char>>, repo: Seq<char>, f: FileView) -> Option<DriftView> {
    if in_scope(f, repo) {
        drift_of(actual, absent(), Kind::File, (f.path, f.blob))
    } else {
        None
    }
}

/// Every tracked file that applies to the repository and whose blob hash the
/// reading does not hold.
pub open spec fn files_spec(files: Seq<FileView>, repo: Seq<char>, actual: Map<Seq<char>, Seq<char>>) -> Seq<DriftView> {
    files.filter_map(|f: FileView| file_drift(actual, repo, f))
}

/// Tracked files, by path and git blob hash, for one repository. A file
/// missing from the reading is drift, reported as `<absent>`.
pub fn drift_files(baseline: &Baseline, repo: &str, actual: &BTreeMap<String, String>) -> (r: Vec<Drift>)
    ensures
        drift_views(r@) == files_spec(baseline@.files, repo@, reading_view(actual)),
        forall|i: int| 0 <= i < r.len() ==> (#[trigger] r@[i]).kind == Kind::File,
{
    let ghost w = baseline@.files;
    let ghost f = |x: FileView| file_drift(reading_view(actual), repo@, x);
    let repo_chars = chars_of(repo);
    let mut out: Vec<Drift> = Vec::new();
    assert(w.take(0) =~= Seq::<FileView>::empty());
    assert(drift_views(out@) =~= Seq::<DriftView>::empty());
    for i in 0..baseline.files.len()
        invariant
            w == baseline@.files,
            repo_chars@ == repo@,
            f == (|x: FileView| file_drift(reading_view(actual), repo@, x)),
            drift_views(out@) == w.take(i as int).filter_map(f),
    {
        let file = &baseline.files[i];
        proof {
            w.lemma_filter_map_take_succ(f, i as int);
            assert(w[i as int] == file@);
        }
        let mut scope: Vec<Vec<char>> = Vec::new();
        for j in 0..file.scope.len()
            invariant
                char_rows(scope@) == string_views(file.scope@).take(j as int),
        {
            let ghost prev = scope@;
            let c = chars_of(file.scope[j].as_str());
            let ghost cv = c@;
            scope.push(c);
            assert(char_rows(scope@) =~= char_rows(prev).push(cv));
            assert(string_views(file.scope@).take(j + 1) =~= string_views(file.scope@).take(j as int).push(cv));
        }
        assert(string_views(file.scope@).take(file.scope.len() as int) =~= string_views(file.scope@));
        if file.scope.len() == 0 || contains_row(&scope, &repo_chars) {
            match reading_get(actual, &file.path) {
                None => {
                    let d = Drift {
                        key: file.path.clone(),
                        desired: file.blob.clone(),
                        actual: "<absent>".to_owned(),
                        kind: Kind::File,
                    };
                    let ghost dv = d@;
                    out.push(d);
                    assert(drift_views(out@) =~= drift_views(out@.drop_last()).push(dv));
                },
                Some(seen) => {
                    if !(*seen == file.blob) {
                        let d = Drift { key: file.path.clone(), desired: file.blob.clone(), actual: seen.clone(), kind: Kind::File };
                        let ghost dv = d@;
                        out.push(d);
                        assert(drift_views(out@) =~= drift_views(out@.drop_last()).push(dv));
                    }
                },
            }
        }
        assert(drift_views(out@) =~= w.take(i + 1).filter_map(f));
    }
    assert(w.take(baseline.files.len() as int) =~= w);
    proof {
        lemma_filter_map_kinds(w, f, Kind::File);
        assert forall|i: int| 0 <= i < out.len() implies (#[trigger] out@[i]).kind == Kind::File by {
            assert(drift_views(out@)[i] == out@[i]@);
        }
    }
    out
}

/// The pending controls that the reading now carries.
pub open spec fn arrived_spec(pending: Seq<Seq<char>>, actual: Map<Seq<char>, Seq<char>>) -> Seq<Seq<char>> {
    pending.filter(|k: Seq<char>| actual.contains_key(k))
}

/// A pending control that has become readable is not drift; it is the
/// signal to promote it into a real setting.
pub fn arrived(baseline: &Baseline, actual: &BTreeMap<String, String>) -> (r: Vec<String>)
    ensures
        string_views(r@) == arrived_spec(baseline@.pending, reading_view(actual)),
{
    let ghost w = baseline@.pending;
    let ghost p = |k: Seq<char>| reading_view(actual).contains_key(k);
    let mut out: Vec<String> = Vec::new();
    assert(w.take(0) =~= Seq::<Seq<char>>::empty());
    assert(string_views(out@) =~= Seq::<Seq<char>>::empty());
    for i in 0..baseline.pending.len()
        invariant
            w == baseline@.pending,
            p == (|k: Seq<char>| reading_view(actual).contains_key(k)),
            string_views(out@) == w.take(i as int).filter(p),
    {
        let key = &baseline.pending[i];
        proof {
            assert(w.take(i + 1) =~= w.take(i as int).push(w[i as int]));
            w.take(i as int).lemma_filter_push(w[i as int], p);
            assert(w[i as int] == key@);
        }
        if reading_get(actual, key).is_some() {
            let k = key.clone();
            let ghost prev = out@;
            out.push(k);
            assert(string_views(out@) =~= string_views(prev).push(key@));
        }
    }
    assert(w.take(baseline.pending.len() as int) =~= w);
    out
}

/// The `key=value` field a setting drift writes.
pub open spec fn setting_field(d: DriftView) -> Option<Seq<char>> {
    if d.kind == Kind::Setting {
        Some(d.key + "="@ + d.desired)
    } else {
        None
    }
}

/// The fields to send to the repository settings endpoint: `key=desired`
/// for each setting drift, and nothing for any other kind, which that
/// endpoint would accept, ignore and answer with success.
pub fn settings_fields(drift: &Vec<Drift>) -> (r: Vec<String>)
    ensures
        string_views(r@) == drift_views(drift@).filter_map(|d: DriftView| setting_field(d)),
{
    let ghost w = drift_views(drift@);
    let ghost f = |d: DriftView| setting_field(d);
    let mut out: Vec<String> = Vec::new();
    assert(w.take(0) =~= Seq::<DriftView>::empty());
    assert(string_views(out@) =~= Seq::<Seq<char>>::empty());
    for i in 0..drift.len()
        invariant
            w == drift_views(drift@),
            f == (|d: DriftView| setting_field(d)),
            string_views(out@) == w.take(i as int).filter_map(f),
    {
        let d = &drift[i];
        proof {
            w.lemma_filter_map_take_succ(f, i as int);
            assert(w[i as int] == d@);
        }
        if d.kind == Kind::Setting {
            let mut v = chars_of(d.key.as_str());
            extend_chars(&mut v, &chars_of("="));
            extend_chars(&mut v, &chars_of(d.desired.as_str()));
            let field = string_of(&v);
            let ghost prev = out@;
            let ghost fv = field@;
            out.push(field);
            assert(string_views(out@) =~= string_views(prev).push(fv));
        }
        assert(string_views(out@) =~= w.take(i + 1).filter_map(f));
    }
    assert(w.take(drift.len() as int) =~= w);
    out
}

/// Two texts whose lines have the same fields, line by line, parse alike.
pub proof fn lemma_parse_same_fields(a: Seq<Seq<char>>, b: Seq<Seq<char>>)
    requires
        a.len() == b.len(),
        forall|i: int| 0 <= i < a.len() ==> words_of(#[trigger] a[i]) == words_of(b[i]),
    ensures
        parse_lines(a) == parse_lines(b),
    decreases a.len(),
{
    if a.len() > 0 {
        let a0 = a.drop_last();
        let b0 = b.drop_last();
        assert forall|i: int| 0 <= i < a0.len() implies words_of(#[trigger] a0[i]) == words_of(b0[i]) by {
            assert(a0[i] == a[i]);
            assert(b0[i] == b[i]);
        }
        lemma_parse_same_fields(a0, b0);
        assert(words_of(a.last()) == words_of(b.last()));
    }
}

/// Whether a line says anything: it has fields and the first does not open
/// a comment.
pub open spec fn meaningful(l: Seq<char>) -> bool {
    !(directive(words_of(l)) is Blank)
}

/// The lines that say something, in order.
pub open spec fn meaningful_lines(ls: Seq<Seq<char>>) -> Seq<Seq<char>> {
    ls.filter(|l: Seq<char>| meaningful(l))
}

/// What a directive adds, read the same on whatever line it stands.
proof fn lemma_add_line_any_number(b: BaselineView, d: Directive, n: nat, m: nat)
    requires
        add_line(b, d, n) is Ok,
    ensures
        add_line(b, d, m) == add_line(b, d, n),
{
}

/// Blank and comment lines never change what a text that parses is read as:
/// dropping them, or adding them, gives the same baseline. (The messages of
/// a text that fails name a line, and so its number.)
pub proof fn lemma_blank_lines_change_nothing(ls: Seq<Seq<char>>)
    ensures
        parse_lines(ls) is Ok ==> parse_lines(meaningful_lines(ls)) == parse_lines(ls),
        parse_lines(meaningful_lines(ls)) is Ok ==> parse_lines(ls) == parse_lines(meaningful_lines(ls)),
    decreases ls.len(),
{
    let p = |l: Seq<char>| meaningful(l);
    if ls.len() > 0 {
        let init = ls.drop_last();
        let l = ls.last();
        lemma_blank_lines_change_nothing(init);
        assert(init.push(l) =~= ls);
        init.lemma_filter_push(l, p);
        let f = meaningful_lines(init);
        if meaningful(l) {
            let g = f.push(l);
            assert(meaningful_lines(ls) == g);
            assert(g.drop_last() =~= f);
            match parse_lines(init) {
                Ok(b) => {
                    if add_line(b, directive(words_of(l)), ls.len()) is Ok {
                        lemma_add_line_any_number(b, directive(words_of(l)), ls.len(), g.len());
                    }
                },
                Err(_) => {},
            }
            match parse_lines(f) {
                Ok(b) => {
                    if add_line(b, directive(words_of(l)), g.len()) is Ok {
                        lemma_add_line_any_number(b, directive(words_of(l)), g.len(), ls.len());
                    }
                },
                Err(_) => {},
            }
        } else {
            assert(meaningful_lines(ls) == f);
        }
    }
}

/// Two texts that differ only in their blank and comment lines parse to the
/// same baseline, as soon as one of them parses.
pub proof fn lemma_same_directives_same_baseline(t1: Seq<char>, t2: Seq<char>, b: BaselineView)
    requires
        meaningful_lines(lines_of(t1)) == meaningful_lines(lines_of(t2)),
        parse_spec(t1) == Ok::<BaselineView, Seq<char>>(b),
    ensures
        parse_spec(t2) == Ok::<BaselineView, Seq<char>>(b),
{
    lemma_blank_lines_change_nothing(lines_of(t1));
    lemma_blank_lines_change_nothing(lines_of(t2));
}

/// The repositories a line lists.
pub open spec fn repo_on(l: Seq<char>) -> Option<Seq<char>> {
    match directive(words_of(l)) {
        Directive::Repo(r) => Some(r),
        _ => None,
    }
}

/// The setting a line asks for.
pub open spec fn setting_on(l: Seq<char>) -> Option<(Seq<char>, Seq<char>)> {
    match directive(words_of(l)) {
        Directive::Setting(k, v) => Some((k, v)),
        _ => None,
    }
}

/// The organisation setting a line asks for.
pub open spec fn org_on(l: Seq<char>) -> Option<(Seq<char>, Seq<char>)> {
    match directive(words_of(l)) {
        Directive::Org(k, v) => Some((k, v)),
        _ => None,
    }
}

/// The object a line expects.
pub open spec fn present_on(l: Seq<char>) -> Option<ExpectedView> {
    match directive(words_of(l)) {
        Directive::Present(k, m, st) => Some(ExpectedView { kind: k, name: m, state: st }),
        _ => None,
    }
}

/// The branch rule a line asks for.
pub open spec fn rule_on(l: Seq<char>) -> Option<(Seq<char>, Seq<char>)> {
    match directive(words_of(l)) {
        Directive::Rule(t, src) => Some((t, src)),
        _ => None,
    }
}

/// The file a line pins.
pub open spec fn file_on(l: Seq<char>) -> Option<FileView> {
    match directive(words_of(l)) {
        Directive::File(path, blob, scope) => Some(FileView { path, blob, scope }),
        _ => None,
    }
}

/// The pending control a line names.
pub open spec fn pending_on(l: Seq<char>) -> Option<Seq<char>> {
    match directive(words_of(l)) {
        Directive::Pending(k) => Some(k),
        _ => None,
    }
}

/// Each list of the baseline, gathered from the lines that spell its
/// directive, in text order.
pub open spec fn listed(ls: Seq<Seq<char>>) -> BaselineView {
    BaselineView {
        repos: ls.filter_map(|l: Seq<char>| repo_on(l)),
        settings: ls.filter_map(|l: Seq<char>| setting_on(l)),
        org: ls.filter_map(|l: Seq<char>| org_on(l)),
        present: ls.filter_map(|l: Seq<char>| present_on(l)),
        rules: ls.filter_map(|l: Seq<char>| rule_on(l)),
        files: ls.filter_map(|l: Seq<char>| file_on(l)),
        pending: ls.filter_map(|l: Seq<char>| pending_on(l)),
    }
}

/// A text that parses is read as the directives of its lines, each list in
/// text order: `repos` holds the argument of every `repo` line, `settings`
/// the pair of every `setting` line, and so on for each directive.
pub proof fn lemma_parse_lists_directives(ls: Seq<Seq<char>>)
    requires
        parse_lines(ls) is Ok,
    ensures
        parse_lines(ls) == Ok::<BaselineView, Seq<char>>(listed(ls)),
    decreases ls.len(),
{
    if ls.len() == 0 {
        assert(listed(ls) =~= empty_view());
    } else {
        let init = ls.drop_last();
        lemma_parse_lists_directives(init);
        let b = listed(init);
        let l = ls.last();
        let r = listed(ls);
        match directive(words_of(l)) {
            Directive::Repo(x) => {
                assert(r =~= BaselineView { repos: b.repos.push(x), ..b });
            },
            Directive::Setting(k, v) => {
                assert(r =~= BaselineView { settings: b.settings.push((k, v)), ..b });
            },
            Directive::Org(k, v) => {
                assert(r =~= BaselineView { org: b.org.push((k, v)), ..b });
            },
            Directive::Present(k, m, st) => {
                assert(r =~= BaselineView { present: b.present.push(ExpectedView { kind: k, name: m, state: st }), ..b });
            },
            Directive::Rule(t, src) => {
                assert(r =~= BaselineView { rules: b.rules.push((t, src)), ..b });
            },
            Directive::File(path, blob, scope) => {
                assert(r =~= BaselineView { files: b.files.push(FileView { path, blob, scope }), ..b });
            },
            Directive::Pending(k) => {
                assert(r =~= BaselineView { pending: b.pending.push(k), ..b });
            },
            _ => {
                assert(r =~= b);
            },
        }
    }
}

/// No drift exactly when the reading holds every wanted value: a reading
/// that matches the baseline reports nothing, and one that does not reports
/// something.
pub proof fn lemma_no_drift_iff_all_match(
    wanted: Seq<(Seq<char>, Seq<char>)>,
    actual: Map<Seq<char>, Seq<char>>,
    missing: Seq<char>,
    kind: Kind,
)
    ensures
        compare_spec(wanted, actual, missing, kind).len() == 0 <==> forall|i: int|
            0 <= i < wanted.len() ==> holds(actual, #[trigger] wanted[i]),
    decreases wanted.len(),
{
    let f = |p: (Seq<char>, Seq<char>)| drift_of(actual, missing, kind, p);
    if wanted.len() > 0 {
        let init = wanted.drop_last();
        lemma_no_drift_iff_all_match(init, actual, missing, kind);
        assert(compare_spec(init, actual, missing, kind) == init.filter_map(f));
        if compare_spec(wanted, actual, missing, kind).len() == 0 {
            assert forall|i: int| 0 <= i < wanted.len() implies holds(actual, #[trigger] wanted[i]) by {
                if i < init.len() {
                    assert(init[i] == wanted[i]);
                    assert(holds(actual, init[i]));
                }
            }
        } else {
            if forall|i: int| 0 <= i < wanted.len() ==> holds(actual, #[trigger] wanted[i]) {
                assert(holds(actual, wanted[wanted.len() - 1]));
                assert forall|i: int| 0 <= i < init.len() implies holds(actual, #[trigger] init[i]) by {
                    assert(init[i] == wanted[i]);
                }
            }
        }
    }
}

/// Comparing two lists of wanted values one after the other reports the
/// drift of the first, then that of the second; an empty list reports none.
pub proof fn lemma_compare_concat(
    w1: Seq<(Seq<char>, Seq<char>)>,
    w2: Seq<(Seq<char>, Seq<char>)>,
    actual: Map<Seq<char>, Seq<char>>,
    missing: Seq<char>,
    kind: Kind,
)
    ensures
        compare_spec(w1 + w2, actual, missing, kind) == compare_spec(w1, actual, missing, kind) + compare_spec(
            w2,
            actual,
            missing,
            kind,
        ),
        compare_spec(Seq::empty(), actual, missing, kind).len() == 0,
    decreases w2.len(),
{
    let f = |p: (Seq<char>, Seq<char>)| drift_of(actual, missing, kind, p);
    let r1 = compare_spec(w1, actual, missing, kind);
    if w2.len() == 0 {
        assert(w1 + w2 =~= w1);
        assert(r1 + compare_spec(w2, actual, missing, kind) =~= r1);
    } else {
        let init = w2.drop_last();
        lemma_compare_concat(w1, init, actual, missing, kind);
        assert((w1 + w2).drop_last() =~= w1 + init);
        assert((w1 + w2).last() == w2.last());
        assert(compare_spec(w1 + w2, actual, missing, kind) == (w1 + w2).filter_map(f));
        assert(compare_spec(w1 + init, actual, missing, kind) == (w1 + init).filter_map(f));
        assert(compare_spec(init, actual, missing, kind) == init.filter_map(f));
        match f(w2.last()) {
            Some(d) => {
                assert(r1 + init.filter_map(f) + seq![d] =~= r1 + (init.filter_map(f) + seq![d]));
            },
            None => {},
        }
    }
}

/// A wanted key the reading does not carry is always drift, reported with
/// the wanted value and `missing`, whatever value was wanted: never passed
/// as satisfied.
pub proof fn lemma_missing_is_drift(
    wanted: Seq<(Seq<char>, Seq<char>)>,
    actual: Map<Seq<char>, Seq<char>>,
    missing: Seq<char>,
    kind: Kind,
    i: int,
)
    requires
        0 <= i < wanted.len(),
        !actual.contains_key(wanted[i].0),
    ensures
        compare_spec(wanted, actual, missing, kind).contains(
            DriftView { key: wanted[i].0, desired: wanted[i].1, actual: missing, kind },
        ),
{
    lemma_filter_map_keeps(wanted, |p: (Seq<char>, Seq<char>)| drift_of(actual, missing, kind, p), i);
}

/// A wanted setting the reading does not carry is drift, reported as
/// `<unreadable>`, whatever value was wanted.
pub proof fn lemma_unread_setting_is_drift(b: BaselineView, actual: Map<Seq<char>, Seq<char>>, i: int)
    requires
        0 <= i < b.settings.len(),
        !actual.contains_key(b.settings[i].0),
    ensures
        compare_spec(b.settings, actual, unreadable(), Kind::Setting).contains(
            DriftView { key: b.settings[i].0, desired: b.settings[i].1, actual: unreadable(), kind: Kind::Setting },
        ),
{
    lemma_missing_is_drift(b.settings, actual, unreadable(), Kind::Setting, i);
}

/// A wanted organisation setting the reading does not carry is drift,
/// reported as `<unreadable>`, whatever value was wanted.
pub proof fn lemma_unread_org_setting_is_drift(b: BaselineView, actual: Map<Seq<char>, Seq<char>>, i: int)
    requires
        0 <= i < b.org.len(),
        !actual.contains_key(b.org[i].0),
    ensures
        compare_spec(b.org, actual, unreadable(), Kind::Org).contains(
            DriftView { key: b.org[i].0, desired: b.org[i].1, actual: unreadable(), kind: Kind::Org },
        ),
{
    lemma_missing_is_drift(b.org, actual, unreadable(), Kind::Org, i);
}

/// An expected object the reading does not carry is drift under
/// `<kind>/<name>`, reported as `<absent>`, whatever state was expected: a
/// deleted object is a failure, not a silence.
pub proof fn lemma_absent_object_is_drift(b: BaselineView, actual: Map<Seq<char>, Seq<char>>, i: int)
    requires
        0 <= i < b.present.len(),
        !actual.contains_key(b.present[i].kind + "/"@ + b.present[i].name),
    ensures
        compare_spec(present_wanted(b.present), actual, absent(), Kind::Present).contains(
            DriftView {
                key: b.present[i].kind + "/"@ + b.present[i].name,
                desired: b.present[i].state,
                actual: absent(),
                kind: Kind::Present,
            },
        ),
{
    assert(present_wanted(b.present)[i] == (b.present[i].kind + "/"@ + b.present[i].name, b.present[i].state));
    lemma_missing_is_drift(present_wanted(b.present), actual, absent(), Kind::Present, i);
}

/// A tracked file that applies to the repository and that the reading does
/// not carry is drift, reported as `<absent>`, whatever blob was wanted.
pub proof fn lemma_absent_file_is_drift(b: BaselineView, repo: Seq<char>, actual: Map<Seq<char>, Seq<char>>, i: int)
    requires
        0 <= i < b.files.len(),
        in_scope(b.files[i], repo),
        !actual.contains_key(b.files[i].path),
    ensures
        files_spec(b.files, repo, actual).contains(
            DriftView { key: b.files[i].path, desired: b.files[i].blob, actual: absent(), kind: Kind::File },
        ),
{
    lemma_filter_map_keeps(b.files, |f: FileView| file_drift(actual, repo, f), i);
}

/// A wanted key the reading carries with another value is drift, reported
/// with the wanted value and the value read.
pub proof fn lemma_wrong_value_is_drift(
    wanted: Seq<(Seq<char>, Seq<char>)>,
    actual: Map<Seq<char>, Seq<char>>,
    missing: Seq<char>,
    kind: Kind,
    i: int,
)
    requires
        0 <= i < wanted.len(),
        actual.contains_key(wanted[i].0),
        actual[wanted[i].0] != wanted[i].1,
    ensures
        compare_spec(wanted, actual, missing, kind).contains(
            DriftView { key: wanted[i].0, desired: wanted[i].1, actual: actual[wanted[i].0], kind },
        ),
{
    lemma_filter_map_keeps(wanted, |p: (Seq<char>, Seq<char>)| drift_of(actual, missing, kind, p), i);
}

/// A tracked file that applies to the repository, and that the reading
/// carries with another blob hash, is drift, reported with the pinned hash
/// and the hash read -- scoped or not.
pub proof fn lemma_wrong_blob_is_drift(b: BaselineView, repo: Seq<char>, actual: Map<Seq<char>, Seq<char>>, i: int)
    requires
        0 <= i < b.files.len(),
        b.files[i].scope.len() == 0 || b.files[i].scope.contains(repo),
        actual.contains_key(b.files[i].path),
        actual[b.files[i].path] != b.files[i].blob,
    ensures
        files_spec(b.files, repo, actual).contains(
            DriftView { key: b.files[i].path, desired: b.files[i].blob, actual: actual[b.files[i].path], kind: Kind::File },
        ),
{
    lemma_filter_map_keeps(b.files, |f: FileView| file_drift(actual, repo, f), i);
}

/// `filter_map` produces nothing exactly when it produces nothing for each
/// element.
proof fn lemma_filter_map_empty<A, B>(s: Seq<A>, f: spec_fn(A) -> Option<B>)
    ensures
        s.filter_map(f).len() == 0 <==> forall|i: int| 0 <= i < s.len() ==> (#[trigger] f(s[i])) is None,
    decreases s.len(),
{
    if s.len() > 0 {
        let init = s.drop_last();
        lemma_filter_map_empty(init, f);
        if forall|i: int| 0 <= i < s.len() ==> (#[trigger] f(s[i])) is None {
            assert(f(s[s.len() - 1]) is None);
            assert forall|i: int| 0 <= i < init.len() implies (#[trigger] f(init[i])) is None by {
                assert(init[i] == s[i]);
            }
        } else if s.filter_map(f).len() == 0 {
            assert(f(s.last()) is None);
            assert forall|i: int| 0 <= i < s.len() implies (#[trigger] f(s[i])) is None by {
                if i < init.len() {
                    assert(init[i] == s[i]);
                    assert(f(init[i]) is None);
                }
            }
        }
    }
}

/// No file drift for a repository exactly when the reading holds the pinned
/// blob hash of every tracked file that applies to it.
pub proof fn lemma_no_file_drift_iff_all_held(files: Seq<FileView>, repo: Seq<char>, actual: Map<Seq<char>, Seq<char>>)
    ensures
        files_spec(files, repo, actual).len() == 0 <==> forall|i: int|
            0 <= i < files.len() && ((#[trigger] files[i]).scope.len() == 0 || files[i].scope.contains(repo))
                ==> actual.contains_key(files[i].path) && actual[files[i].path] == files[i].blob,
{
    let f = |x: FileView| file_drift(actual, repo, x);
    lemma_filter_map_empty(files, f);
    assert forall|i: int| 0 <= i < files.len() implies ((#[trigger] f(files[i])) is None <==> (!(files[i].scope.len() == 0
        || files[i].scope.contains(repo)) || (actual.contains_key(files[i].path) && actual[files[i].path]
        == files[i].blob))) by {}
    if files_spec(files, repo, actual).len() == 0 {
        assert forall|i: int|
            0 <= i < files.len() && ((#[trigger] files[i]).scope.len() == 0 || files[i].scope.contains(repo))
                implies actual.contains_key(files[i].path) && actual[files[i].path] == files[i].blob by {
            assert(f(files[i]) is None);
        }
    } else {
        let i = choose|i: int| 0 <= i < files.len() && !((#[trigger] f(files[i])) is None);
        assert(f(files[i]) is Some);
    }
}

/// A branch rule in effect, but not from the wanted source, is drift,
/// reported with the wanted source and the sources read.
pub proof fn lemma_rule_from_elsewhere_is_drift(rules: Seq<(Seq<char>, Seq<char>)>, actual: Map<Seq<char>, Seq<char>>, i: int)
    requires
        0 <= i < rules.len(),
        actual.contains_key(rules[i].0),
        !pieces(actual[rules[i].0], ',').contains(rules[i].1),
    ensures
        rules_spec(rules, actual).contains(
            DriftView { key: rules[i].0, desired: rules[i].1, actual: actual[rules[i].0], kind: Kind::Rule },
        ),
{
    lemma_filter_map_keeps(rules, |p: (Seq<char>, Seq<char>)| rule_drift(actual, p), i);
}

/// A branch rule not in effect at all is drift, reported as `<absent>`.
pub proof fn lemma_absent_rule_is_drift(rules: Seq<(Seq<char>, Seq<char>)>, actual: Map<Seq<char>, Seq<char>>, i: int)
    requires
        0 <= i < rules.len(),
        !actual.contains_key(rules[i].0),
    ensures
        rules_spec(rules, actual).contains(
            DriftView { key: rules[i].0, desired: rules[i].1, actual: absent(), kind: Kind::Rule },
        ),
{
    lemma_filter_map_keeps(rules, |p: (Seq<char>, Seq<char>)| rule_drift(actual, p), i);
}

/// No rule drift exactly when every wanted rule is in effect and its wanted
/// source is one of the comma-separated sources read for it.
pub proof fn lemma_no_rule_drift_iff_all_sourced(rules: Seq<(Seq<char>, Seq<char>)>, actual: Map<Seq<char>, Seq<char>>)
    ensures
        rules_spec(rules, actual).len() == 0 <==> forall|i: int|
            0 <= i < rules.len() ==> actual.contains_key((#[trigger] rules[i]).0) && pieces(actual[rules[i].0], ',').contains(
                rules[i].1,
            ),
{
    let f = |p: (Seq<char>, Seq<char>)| rule_drift(actual, p);
    lemma_filter_map_empty(rules, f);
    if rules_spec(rules, actual).len() == 0 {
        assert forall|i: int| 0 <= i < rules.len() implies actual.contains_key((#[trigger] rules[i]).0) && pieces(
            actual[rules[i].0],
            ',',
        ).contains(rules[i].1) by {
            assert(f(rules[i]) is None);
        }
    } else {
        let i = choose|i: int| 0 <= i < rules.len() && !((#[trigger] f(rules[i])) is None);
        assert(f(rules[i]) is Some);
    }
}

/// A pending control is announced exactly when the baseline lists it as
/// pending and the reading now carries it.
pub proof fn lemma_arrived_iff_pending_and_read(pending: Seq<Seq<char>>, actual: Map<Seq<char>, Seq<char>>, k: Seq<char>)
    ensures
        arrived_spec(pending, actual).contains(k) <==> pending.contains(k) && actual.contains_key(k),
{
    let p = |x: Seq<char>| actual.contains_key(x);
    if pending.contains(k) && actual.contains_key(k) {
        let i = choose|i: int| 0 <= i < pending.len() && pending[i] == k;
        pending.lemma_filter_contains(p, i);
    }
    if arrived_spec(pending, actual).contains(k) {
        pending.lemma_filter_contains_rev(p, k);
        let j = choose|j: int| 0 <= j < pending.filter(p).len() && pending.filter(p)[j] == k;
        pending.lemma_filter_pred(p, j);
    }
}

/// What `filter_map` produces for an element is among its results.
proof fn lemma_filter_map_keeps<A, B>(s: Seq<A>, f: spec_fn(A) -> Option<B>, i: int)
    requires
        0 <= i < s.len(),
        f(s[i]) is Some,
    ensures
        s.filter_map(f).contains(f(s[i])->0),
    decreases s.len(),
{
    if i == s.len() - 1 {
        let r = s.filter_map(f);
        assert(r == s.drop_last().filter_map(f) + seq![f(s[i])->0]);
        assert(r[r.len() - 1] == f(s[i])->0);
    } else {
        lemma_filter_map_keeps(s.drop_last(), f, i);
        assert(s.drop_last()[i] == s[i]);
        let r0 = s.drop_last().filter_map(f);
        let k = choose|k: int| 0 <= k < r0.len() && r0[k] == f(s[i])->0;
        match f(s.last()) {
            Some(y) => {
                assert((r0 + seq![y])[k] == r0[k]);
            },
            None => {},
        }
    }
}

} // verus!
