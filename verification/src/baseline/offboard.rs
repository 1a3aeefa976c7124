//! Taking a repository out of the baseline.
//!
//! Deliberately not a `destroy`. This tool builds nothing: it changes
//! settings that already exist, and a setting cannot be un-set, only set to
//! something else. So the inverse of managing a repository is not undoing its
//! controls, it is no longer watching it. Nothing on GitHub changes.
use vstd::prelude::*;
use super::{
    add_line, directive, empty_view, lemma_parse_same_fields, parse, parse_lines, parse_spec,
    BaselineView, FileView,
};
use crate::text::{
    char_rows, chars_of, extend_chars, is_whitespace, is_word, is_ws, join, join_chars,
    lemma_join_single, lemma_join_terminated, lemma_lines_single, lemma_lines_terminated,
    lemma_words_are_words, lemma_words_append, lemma_words_join, lemma_words_nonempty,
    lemma_words_push_len, lemma_words_strip_cr, lines_from, lines_of, same_chars, single_line,
    split_lines, split_words, string_of, string_views, strip_cr, words_from, words_of,
};

verus! {

/// Where a field starts: a non-whitespace character at the start of the
/// text or after whitespace.
pub open spec fn field_start(s: Seq<char>, i: int) -> bool {
    0 <= i < s.len() && !is_ws(s[i]) && (i == 0 || is_ws(s[i - 1]))
}

/// Where the fourth field starts: on a `file` line, the repository list.
pub open spec fn is_scope_start(s: Seq<char>, i: int) -> bool {
    field_start(s, i) && words_of(s.take(i)).len() == 3
}

/// The start of a line's fourth field, if it has one.
pub open spec fn scope_start_spec(s: Seq<char>) -> Option<int> {
    if exists|i: int| is_scope_start(s, i) {
        Some(choose|i: int| is_scope_start(s, i))
    } else {
        None
    }
}

/// A line has at most one fourth field.
proof fn lemma_scope_start_unique(s: Seq<char>, i: int, j: int)
    requires
        is_scope_start(s, i),
        is_scope_start(s, j),
    ensures
        i == j,
{
    if i < j {
        lemma_later_field_has_more(s, i, j);
    } else if j < i {
        lemma_later_field_has_more(s, j, i);
    }
}

proof fn lemma_later_field_has_more(s: Seq<char>, i: int, j: int)
    requires
        field_start(s, i),
        i < j <= s.len(),
    ensures
        words_of(s.take(j)).len() > words_of(s.take(i)).len(),
{
    let a = s.take(i);
    let b = s.subrange(i, j);
    assert(s.take(j) =~= a + b);
    assert(b[0] == s[i]);
    if i > 0 {
        assert(a.last() == s[i - 1]);
    }
    lemma_words_append(a, b, seq![]);
    lemma_words_nonempty(b, seq![]);
}

/// A line has a fourth field exactly when it has at least four fields; where
/// it has one, it starts a field and three fields come before it.
pub proof fn lemma_scope_start_iff_four_fields(s: Seq<char>)
    ensures
        scope_start_spec(s) is None <==> words_of(s).len() <= 3,
        scope_start_spec(s) matches Some(i) ==> field_start(s, i) && words_of(s.take(i)).len() == 3
            && words_of(s) == words_of(s.take(i)) + words_of(s.skip(i)),
{
    if exists|i: int| is_scope_start(s, i) {
        let i = choose|i: int| is_scope_start(s, i);
        lemma_file_line_split(s, i);
    } else if words_of(s).len() >= 4 {
        assert(s.take(0) =~= Seq::<char>::empty());
        assert(words_of(Seq::<char>::empty()) =~= Seq::<Seq<char>>::empty());
        lemma_scope_exists(s, 0);
    }
}

/// The start of the repository list on a `file` line: the fourth field, or
/// `None` when the file is unscoped and therefore applies to every
/// repository.
fn scope_start(line: &Vec<char>) -> (r: Option<usize>)
    ensures
        match r {
            Some(i) => is_scope_start(line@, i as int) && scope_start_spec(line@) == Some(i as int),
            None => scope_start_spec(line@) is None && words_of(line@).len() <= 3,
        },
{
    let ghost s = line@;
    let mut seen: usize = 0;
    let mut in_field = false;
    let mut i: usize = 0;
    assert(s.take(0) =~= Seq::<char>::empty());
    assert(words_of(Seq::<char>::empty()) =~= Seq::<Seq<char>>::empty());
    while i < line.len()
        invariant
            s == line@,
            i <= s.len(),
            seen == words_of(s.take(i as int)).len(),
            seen <= 3,
            in_field == (i > 0 && !is_ws(s[i - 1])),
            forall|j: int| 0 <= j < i ==> !is_scope_start(s, j),
        decreases s.len() - i,
    {
        let c = line[i];
        proof {
            lemma_words_push_len(s.take(i as int), c);
            assert(s.take(i + 1) =~= s.take(i as int).push(c));
            if i > 0 {
                assert(s.take(i as int).last() == s[i - 1]);
            }
        }
        if is_whitespace(c) {
            in_field = false;
        } else if !in_field {
            in_field = true;
            seen += 1;
            if seen == 4 {
                proof {
                    assert(is_scope_start(s, i as int));
                    let k = choose|k: int| is_scope_start(s, k);
                    lemma_scope_start_unique(s, i as int, k);
                }
                return Some(i);
            }
        }
        i += 1;
    }
    assert(s.take(i as int) =~= s);
    None
}

/// Whether a name is other than `repo`.
pub open spec fn not_repo(repo: Seq<char>) -> spec_fn(Seq<char>) -> bool {
    |r: Seq<char>| r != repo
}

/// The line that offboarding `repo` leaves in place of `line`, or none: the
/// `repo` line itself goes; a `file` line scoped to `repo` loses that name
/// from its repository list, keeping everything before the list verbatim,
/// and goes when no name is left; every other line stays as it is.
pub open spec fn offboarded_line(line: Seq<char>, repo: Seq<char>) -> Option<Seq<char>> {
    let w = words_of(line);
    if w.len() >= 2 && w[0] == "repo"@ && w[1] == repo {
        None
    } else if w.len() >= 2 && w[0] == "file"@ {
        match scope_start_spec(line) {
            None => Some(line),
            Some(i) => {
                let kept = words_of(line.skip(i)).filter(not_repo(repo));
                if kept.len() == 0 {
                    None
                } else {
                    Some(line.take(i) + join(kept, " "@))
                }
            },
        }
    } else {
        Some(line)
    }
}

/// The lines offboarding `repo` leaves, in order.
pub open spec fn offboarded_lines(ls: Seq<Seq<char>>, repo: Seq<char>) -> Seq<Seq<char>> {
    ls.filter_map(offboard_for(repo))
}

/// `offboarded_line` for `repo`.
pub open spec fn offboard_for(repo: Seq<char>) -> spec_fn(Seq<char>) -> Option<Seq<char>> {
    |l: Seq<char>| offboarded_line(l, repo)
}

/// What offboarding `repo` makes of a baseline text: the text's lines, each
/// as `offboarded_line` leaves it, one per line; or, when the text does not
/// parse, its parse error; or, when the baseline does not list `repo`, the
/// message naming it.
pub open spec fn offboard_spec(text: Seq<char>, repo: Seq<char>) -> Result<Seq<char>, Seq<char>> {
    match parse_spec(text) {
        Err(e) => Err(e),
        Ok(b) => if !b.repos.contains(repo) {
            Err(repo + " is not in the baseline"@)
        } else {
            Ok(join(offboarded_lines(lines_of(text), repo), "\n"@) + "\n"@)
        },
    }
}

/// Offboarding is refused exactly when the text does not parse, with its
/// parse error, or when the baseline does not list the repository, with the
/// message naming it.
pub proof fn lemma_offboard_refusals(text: Seq<char>, repo: Seq<char>)
    ensures
        offboard_spec(text, repo) is Err <==> (parse_spec(text) is Err || !parse_spec(text)->Ok_0.repos.contains(
            repo,
        )),
        parse_spec(text) matches Err(e) ==> offboard_spec(text, repo) == Err::<Seq<char>, Seq<char>>(e),
        parse_spec(text) matches Ok(b) && !b.repos.contains(repo) ==> offboard_spec(text, repo) == Err::<
            Seq<char>,
            Seq<char>,
        >(repo + " is not in the baseline"@),
{
}

/// The names of `words` other than `repo`.
fn without(words: &Vec<Vec<char>>, repo: &Vec<char>) -> (r: Vec<Vec<char>>)
    ensures
        char_rows(r@) == char_rows(words@).filter(|x: Seq<char>| x != repo@),
{
    let ghost w = char_rows(words@);
    let ghost p = |x: Seq<char>| x != repo@;
    let mut out: Vec<Vec<char>> = Vec::new();
    assert(w.take(0) =~= Seq::<Seq<char>>::empty());
    assert(char_rows(out@) =~= Seq::<Seq<char>>::empty());
    for i in 0..words.len()
        invariant
            w == char_rows(words@),
            p == (|x: Seq<char>| x != repo@),
            char_rows(out@) == w.take(i as int).filter(p),
    {
        proof {
            assert(w.take(i + 1) =~= w.take(i as int).push(w[i as int]));
            w.take(i as int).lemma_filter_push(w[i as int], p);
            assert(w[i as int] == words@[i as int]@);
        }
        if !same_chars(&words[i], repo) {
            let ghost prev = out@;
            let x = words[i].clone();
            assert(x@ == words@[i as int]@);
            out.push(x);
            assert(char_rows(out@) =~= char_rows(prev).push(words@[i as int]@));
        }
    }
    assert(w.take(words.len() as int) =~= w);
    out
}

fn offboard_line(line: &Vec<char>, repo: &Vec<char>) -> (r: Option<Vec<char>>)
    ensures
        match r {
            Some(l) => offboarded_line(line@, repo@) == Some(l@),
            None => offboarded_line(line@, repo@) is None,
        },
{
    let fields = split_words(line);
    let ghost w = words_of(line@);
    if fields.len() >= 2 {
        assert(w[0] == fields@[0]@);
        assert(w[1] == fields@[1]@);
    }
    if fields.len() >= 2 && same_chars(&fields[0], &chars_of("repo")) && same_chars(&fields[1], repo) {
        return None;
    }
    if fields.len() >= 2 && same_chars(&fields[0], &chars_of("file")) {
        match scope_start(line) {
            None => {
                return Some(line.clone());
            },
            Some(at) => {
                let mut head: Vec<char> = Vec::new();
                let mut scope: Vec<char> = Vec::new();
                for k in 0..line.len()
                    invariant
                        at < line.len(),
                        k <= at ==> head@ == line@.take(k as int) && scope@ == Seq::<char>::empty(),
                        k > at ==> head@ == line@.take(at as int) && scope@ == line@.subrange(at as int, k as int),
                {
                    if k < at {
                        head.push(line[k]);
                        assert(line@.take(k + 1) =~= line@.take(k as int).push(line@[k as int]));
                    } else {
                        scope.push(line[k]);
                        assert(line@.subrange(at as int, k + 1) =~= line@.subrange(at as int, k as int).push(line@[k as int]));
                    }
                }
                assert(line@.subrange(at as int, line.len() as int) =~= line@.skip(at as int));
                let names = split_words(&scope);
                let kept = without(&names, repo);
                if kept.len() == 0 {
                    return None;
                }
                let mut out = head;
                let sep = chars_of(" ");
                extend_chars(&mut out, &join_chars(&kept, &sep));
                return Some(out);
            },
        }
    }
    Some(line.clone())
}

/// Take a repository out of the baseline, returning the new text.
///
/// Works on the text rather than on a parsed `Baseline` so comments, blank
/// lines and ordering survive.
///
/// # Errors
///
/// Returns the parse error of a text that does not parse, and an error
/// naming the repository when it is not in the baseline: a typo would
/// otherwise look exactly like success.
pub fn offboard(text: &str, repo: &str) -> (r: Result<String, String>)
    ensures
        match r {
            Ok(o) => offboard_spec(text@, repo@) == Ok::<Seq<char>, Seq<char>>(o@),
            Err(e) => offboard_spec(text@, repo@) == Err::<Seq<char>, Seq<char>>(e@),
        },
{
    let b = match parse(text) {
        Ok(b) => b,
        Err(e) => return Err(e),
    };
    let repo_chars = chars_of(repo);
    let mut listed = false;
    let ghost repos = string_views(b.repos@);
    for i in 0..b.repos.len()
        invariant
            repos == string_views(b.repos@),
            repo_chars@ == repo@,
            listed == (exists|k: int| 0 <= k < i && #[trigger] repos[k] == repo@),
    {
        let name = chars_of(b.repos[i].as_str());
        assert(repos[i as int] == b.repos@[i as int]@);
        if same_chars(&name, &repo_chars) {
            listed = true;
        }
    }
    if !listed {
        let mut msg = repo_chars;
        extend_chars(&mut msg, &chars_of(" is not in the baseline"));
        return Err(string_of(&msg));
    }
    let chars = chars_of(text);
    let lines = split_lines(&chars);
    let ghost ls = char_rows(lines@);
    let ghost f = |l: Seq<char>| offboarded_line(l, repo@);
    let mut out: Vec<Vec<char>> = Vec::new();
    assert(ls.take(0) =~= Seq::<Seq<char>>::empty());
    assert(char_rows(out@) =~= Seq::<Seq<char>>::empty());
    for n in 0..lines.len()
        invariant
            ls == char_rows(lines@),
            ls == lines_of(text@),
            repo_chars@ == repo@,
            f == (|l: Seq<char>| offboarded_line(l, repo@)),
            char_rows(out@) == ls.take(n as int).filter_map(f),
    {
        proof {
            ls.lemma_filter_map_take_succ(f, n as int);
            assert(ls[n as int] == lines@[n as int]@);
        }
        match offboard_line(&lines[n], &repo_chars) {
            Some(l) => {
                let ghost prev = out@;
                let ghost lv = l@;
                out.push(l);
                assert(char_rows(out@) =~= char_rows(prev).push(lv));
            },
            None => {},
        }
        assert(char_rows(out@) =~= ls.take(n + 1).filter_map(f));
    }
    assert(ls.take(lines.len() as int) =~= ls);
    let nl = chars_of("\n");
    let mut joined = join_chars(&out, &nl);
    extend_chars(&mut joined, &nl);
    Ok(string_of(&joined))
}

/// A tracked file once `repo` is no longer watched: unscoped, it stays;
/// scoped, it loses `repo` from its list, and goes when nothing is left.
pub open spec fn retained_file(f: FileView, repo: Seq<char>) -> Option<FileView> {
    if f.scope.len() == 0 {
        Some(f)
    } else {
        let kept = f.scope.filter(not_repo(repo));
        if kept.len() == 0 {
            None
        } else {
            Some(FileView { scope: kept, ..f })
        }
    }
}

/// `retained_file` for `repo`.
pub open spec fn retain_for(repo: Seq<char>) -> spec_fn(FileView) -> Option<FileView> {
    |f: FileView| retained_file(f, repo)
}

/// The baseline once `repo` is no longer watched: the repository is no
/// longer listed and its tracked files are retained as `retained_file`
/// says; settings, organisation settings, asserted objects, rules and
/// pending controls are untouched.
pub open spec fn without_repo(b: BaselineView, repo: Seq<char>) -> BaselineView {
    BaselineView {
        repos: b.repos.filter(not_repo(repo)),
        files: b.files.filter_map(retain_for(repo)),
        ..b
    }
}

/// A line with a fourth field has a place where it starts.
proof fn lemma_scope_exists(s: Seq<char>, j: int)
    requires
        0 <= j <= s.len(),
        words_of(s.take(j)).len() <= 3,
        words_of(s).len() >= 4,
    ensures
        exists|i: int| is_scope_start(s, i),
    decreases s.len() - j,
{
    if j == s.len() {
        assert(s.take(j) =~= s);
    } else {
        lemma_words_push_len(s.take(j), s[j]);
        assert(s.take(j + 1) =~= s.take(j).push(s[j]));
        if j > 0 {
            assert(s.take(j).last() == s[j - 1]);
        }
        if words_of(s.take(j + 1)).len() == 4 {
            assert(is_scope_start(s, j));
        } else {
            lemma_scope_exists(s, j + 1);
        }
    }
}

/// Whatever holds of every element holds of every kept element.
proof fn lemma_filter_keeps_words(s: Seq<Seq<char>>, p: spec_fn(Seq<char>) -> bool)
    requires
        forall|i: int| 0 <= i < s.len() ==> is_word(#[trigger] s[i]),
    ensures
        forall|i: int| 0 <= i < s.filter(p).len() ==> is_word(#[trigger] s.filter(p)[i]),
    decreases s.len(),
{
    if s.len() > 0 {
        let init = s.drop_last();
        assert forall|i: int| 0 <= i < init.len() implies is_word(#[trigger] init[i]) by {
            assert(init[i] == s[i]);
        }
        lemma_filter_keeps_words(init, p);
        assert(init.push(s.last()) =~= s);
        init.lemma_filter_push(s.last(), p);
        assert(is_word(s.last()));
        assert forall|i: int| 0 <= i < s.filter(p).len() implies is_word(#[trigger] s.filter(p)[i]) by {
            if i < init.filter(p).len() {
                assert(s.filter(p)[i] == init.filter(p)[i]);
            }
        }
    }
}

/// How a `file` line with a repository list is split at it.
proof fn lemma_file_line_split(l: Seq<char>, i: int)
    requires
        is_scope_start(l, i),
    ensures
        i > 0,
        is_ws(l[i - 1]),
        words_of(l) == words_of(l.take(i)) + words_of(l.skip(i)),
        words_of(l.skip(i)).len() >= 1,
{
    if i == 0 {
        assert(l.take(0) =~= Seq::<char>::empty());
        assert(words_of(Seq::<char>::empty()) =~= Seq::<Seq<char>>::empty());
    }
    assert(l.take(i).last() == l[i - 1]);
    assert(l.take(i) + l.skip(i) =~= l);
    lemma_words_append(l.take(i), l.skip(i), seq![]);
    assert(l.skip(i)[0] == l[i]);
    lemma_words_nonempty(l.skip(i), seq![]);
}

/// One line: what offboarding leaves of it reads, into the offboarded
/// baseline so far, as the line read into the baseline so far, offboarded.
proof fn lemma_offboard_step(
    b0: BaselineView,
    b: BaselineView,
    l: Seq<char>,
    repo: Seq<char>,
    n: nat,
    n2: nat,
)
    requires
        add_line(b0, directive(words_of(l)), n) == Ok::<BaselineView, Seq<char>>(b),
    ensures
        match offboarded_line(l, repo) {
            None => without_repo(b, repo) == without_repo(b0, repo),
            Some(l2) => add_line(without_repo(b0, repo), directive(words_of(l2)), n2) == Ok::<
                BaselineView,
                Seq<char>,
            >(without_repo(b, repo)),
        },
{
    reveal_strlit("repo");
    reveal_strlit("setting");
    reveal_strlit("org");
    reveal_strlit("present");
    reveal_strlit("rule");
    reveal_strlit("file");
    reveal_strlit("pending");
    let w = words_of(l);
    let p = not_repo(repo);
    let g = retain_for(repo);
    lemma_words_are_words(l, seq![]);
    let wb0 = without_repo(b0, repo);
    if w.len() == 0 || w[0][0] == '#' {
        assert(b == b0);
    } else if w[0] == "repo"@ && w.len() == 2 {
        b0.repos.lemma_filter_push(w[1], p);
        assert(b.repos == b0.repos.push(w[1]));
        if w[1] == repo {
            assert(without_repo(b, repo) =~= without_repo(b0, repo));
        } else {
            assert(offboarded_line(l, repo) == Some(l));
            assert(without_repo(b, repo) =~= BaselineView { repos: wb0.repos.push(w[1]), ..wb0 });
        }
    } else if w[0] == "setting"@ && w.len() >= 3 {
        assert(offboarded_line(l, repo) == Some(l));
        assert(without_repo(b, repo) =~= BaselineView { settings: wb0.settings.push((w[1], w[2])), ..wb0 });
    } else if w[0] == "org"@ && w.len() >= 3 {
        assert(offboarded_line(l, repo) == Some(l));
        assert(without_repo(b, repo) =~= BaselineView { org: wb0.org.push((w[1], w[2])), ..wb0 });
    } else if w[0] == "present"@ && w.len() >= 3 {
        assert(w.len() >= 4);
        assert(offboarded_line(l, repo) == Some(l));
        assert(without_repo(b, repo) =~= BaselineView {
            present: wb0.present.push(super::ExpectedView { kind: w[1], name: w[2], state: w[3] }),
            ..wb0
        });
    } else if w[0] == "rule"@ && w.len() >= 3 {
        assert(w[0][1] != "repo"@[1]);
        assert(offboarded_line(l, repo) == Some(l));
        assert(without_repo(b, repo) =~= BaselineView { rules: wb0.rules.push((w[1], w[2])), ..wb0 });
    } else if w[0] == "file"@ && w.len() >= 3 {
        let f = FileView { path: w[1], blob: w[2], scope: w.skip(3) };
        assert(b.files == b0.files.push(f));
        assert(b0.files.push(f).drop_last() =~= b0.files);
        assert(b.files.filter_map(g) == match g(f) {
            Some(x) => b0.files.filter_map(g) + seq![x],
            None => b0.files.filter_map(g),
        });
        if exists|i: int| is_scope_start(l, i) {
            let i = choose|i: int| is_scope_start(l, i);
            assert(scope_start_spec(l) == Some(i));
            lemma_file_line_split(l, i);
            let head = l.take(i);
            let sc = words_of(l.skip(i));
            assert(words_of(head).len() == 3);
            assert(w.skip(3) =~= sc);
            assert(w.take(3) =~= words_of(head));
            assert(f.scope == sc);
            let kept = sc.filter(p);
            if kept.len() == 0 {
                assert(offboarded_line(l, repo) is None);
                assert(g(f) is None);
                assert(without_repo(b, repo) =~= without_repo(b0, repo));
            } else {
                let l2 = head + join(kept, " "@);
                assert(offboarded_line(l, repo) == Some(l2));
                assert forall|k: int| 0 <= k < sc.len() implies is_word(#[trigger] sc[k]) by {
                    assert(sc[k] == w[k + 3]);
                }
                lemma_filter_keeps_words(sc, p);
                lemma_words_join(kept);
                assert(head.last() == l[i - 1]);
                lemma_words_append(head, join(kept, " "@), seq![]);
                let w2 = words_of(l2);
                assert(w2 == words_of(head) + kept);
                assert(w2[0] == w[0]);
                assert(w2[1] == w[1]);
                assert(w2[2] == w[2]);
                assert(w2.skip(3) =~= kept);
                assert(g(f) == Some(FileView { scope: kept, ..f }));
                assert(directive(w2) == super::Directive::File(w[1], w[2], kept));
                assert(without_repo(b, repo) =~= BaselineView {
                    files: wb0.files.push(FileView { scope: kept, ..f }),
                    ..wb0
                });
            }
        } else {
            assert(scope_start_spec(l) is None);
            if w.len() >= 4 {
                assert(l.take(0) =~= Seq::<char>::empty());
                assert(words_of(Seq::<char>::empty()) =~= Seq::<Seq<char>>::empty());
                lemma_scope_exists(l, 0);
            }
            assert(f.scope.len() == 0);
            assert(offboarded_line(l, repo) == Some(l));
            assert(without_repo(b, repo) =~= BaselineView { files: wb0.files.push(f), ..wb0 });
        }
    } else if w[0] == "pending"@ && w.len() >= 2 {
        assert(offboarded_line(l, repo) == Some(l));
        assert(without_repo(b, repo) =~= BaselineView { pending: wb0.pending.push(w[1]), ..wb0 });
    } else {
        assert(false);
    }
}

/// Line by line, offboarding keeps the baseline the lines spell, less the
/// repository.
proof fn lemma_offboard_lines(ls: Seq<Seq<char>>, repo: Seq<char>, b: BaselineView)
    requires
        parse_lines(ls) == Ok::<BaselineView, Seq<char>>(b),
    ensures
        parse_lines(offboarded_lines(ls, repo)) == Ok::<
            BaselineView,
            Seq<char>,
        >(without_repo(b, repo)),
    decreases ls.len(),
{
    let f = offboard_for(repo);
    if ls.len() == 0 {
        reveal(Seq::filter);
        assert(without_repo(b, repo) =~= b);
    } else {
        let l0 = ls.drop_last();
        let l = ls.last();
        match parse_lines(l0) {
            Ok(b0) => {
                lemma_offboard_lines(l0, repo, b0);
                let fm0 = l0.filter_map(f);
                lemma_offboard_step(b0, b, l, repo, ls.len(), fm0.len() + 1);
                match f(l) {
                    None => {
                        assert(ls.filter_map(f) == fm0);
                    },
                    Some(l2) => {
                        let fm = fm0 + seq![l2];
                        assert(ls.filter_map(f) == fm);
                        assert(fm.drop_last() =~= fm0);
                        assert(fm.last() == l2);
                    },
                }
            },
            Err(_) => {},
        }
    }
}

/// What offboarding leaves of a line holds no `\n` when the line holds none.
proof fn lemma_offboarded_single(l: Seq<char>, repo: Seq<char>)
    requires
        single_line(l),
    ensures
        offboarded_line(l, repo) matches Some(l2) ==> single_line(l2),
{
    reveal_strlit(" ");
    if let Some(l2) = offboarded_line(l, repo) {
        if l2 != l {
            let i = choose|i: int| is_scope_start(l, i);
            let head = l.take(i);
            let p = not_repo(repo);
            let sc = words_of(l.skip(i));
            let kept = sc.filter(p);
            lemma_words_are_words(l.skip(i), seq![]);
            lemma_filter_keeps_words(sc, p);
            lemma_join_single(kept);
            let j = join(kept, " "@);
            assert(l2 == head + j);
            assert forall|k: int| 0 <= k < l2.len() implies #[trigger] l2[k] != '\n' by {
                if k < head.len() {
                    assert(l2[k] == l[k]);
                } else {
                    assert(l2[k] == j[k - head.len()]);
                }
            }
        }
    }
}

proof fn lemma_offboarded_lines_single(ls: Seq<Seq<char>>, repo: Seq<char>)
    requires
        forall|i: int| 0 <= i < ls.len() ==> single_line(#[trigger] ls[i]),
    ensures
        forall|i: int|
            0 <= i < offboarded_lines(ls, repo).len() ==> single_line(
                #[trigger] offboarded_lines(ls, repo)[i],
            ),
    decreases ls.len(),
{
    let f = offboard_for(repo);
    if ls.len() > 0 {
        let l0 = ls.drop_last();
        assert forall|i: int| 0 <= i < l0.len() implies single_line(#[trigger] l0[i]) by {
            assert(l0[i] == ls[i]);
        }
        lemma_offboarded_lines_single(l0, repo);
        lemma_offboarded_single(ls.last(), repo);
        let fm0 = l0.filter_map(f);
        assert(fm0 == offboarded_lines(l0, repo));
        assert(f(ls.last()) == offboarded_line(ls.last(), repo));
        match f(ls.last()) {
            None => {
                assert(ls.filter_map(f) == fm0);
            },
            Some(l2) => {
                let fm = fm0 + seq![l2];
                assert(ls.filter_map(f) == fm);
                assert(single_line(l2));
                assert forall|i: int| 0 <= i < fm.len() implies single_line(#[trigger] fm[i]) by {
                    if i < fm0.len() {
                        assert(fm[i] == fm0[i]);
                        assert(single_line(offboarded_lines(l0, repo)[i]));
                    } else {
                        assert(fm[i] == l2);
                    }
                }
                assert(offboarded_lines(ls, repo) == fm);
            },
        }
    }
}

/// Offboarding stops watching a repository and changes nothing else the
/// baseline says: the text it returns parses, to the baseline without that
/// repository, with each tracked file scoped to it losing it (and a file
/// scoped to it alone going with it), and every setting, organisation
/// setting, asserted object, rule and pending control as it was.
pub proof fn lemma_offboard_unwatches(text: Seq<char>, repo: Seq<char>, b: BaselineView)
    requires
        parse_spec(text) == Ok::<BaselineView, Seq<char>>(b),
        b.repos.contains(repo),
    ensures
        offboard_spec(text, repo) matches Ok(out) && parse_spec(out) == Ok::<
            BaselineView,
            Seq<char>,
        >(without_repo(b, repo)),
{
    reveal_strlit("\n");
    let f = offboard_for(repo);
    let ls = lines_of(text);
    let lp = ls.filter_map(f);
    let out = join(lp, "\n"@) + "\n"@;
    assert(offboard_spec(text, repo) == Ok::<Seq<char>, Seq<char>>(out));
    lemma_offboard_lines(ls, repo, b);
    lemma_lines_single(text, seq![]);
    lemma_offboarded_lines_single(ls, repo);
    if lp.len() == 0 {
        let e = Seq::<char>::empty();
        assert(out =~= "\n"@);
        assert(out.drop_first() =~= e);
        assert(lines_from(out, e) == seq![strip_cr(e)] + lines_from(e, e));
        assert(lines_of(out) =~= seq![e]);
        let one = seq![e];
        assert(one.drop_last() =~= Seq::<Seq<char>>::empty());
        assert(one.last() == e);
        assert(words_of(e) =~= Seq::<Seq<char>>::empty());
        assert(directive(words_of(e)) is Blank);
        assert(parse_lines(Seq::<Seq<char>>::empty()) == Ok::<BaselineView, Seq<char>>(empty_view()));
        assert(lp =~= Seq::<Seq<char>>::empty());
        assert(parse_lines(one) == parse_lines(lp));
    } else {
        lemma_join_terminated(lp);
        lemma_lines_terminated(lp);
        let stripped = lp.map_values(|l: Seq<char>| strip_cr(l));
        assert forall|i: int| 0 <= i < stripped.len() implies words_of(#[trigger] stripped[i])
            == words_of(lp[i]) by {
            lemma_words_strip_cr(lp[i]);
        }
        lemma_parse_same_fields(stripped, lp);
    }
}

/// Offboarding happens once: offboarding the same repository from the text
/// it returned is refused, with the message naming the repository.
pub proof fn lemma_offboard_once(text: Seq<char>, repo: Seq<char>, b: BaselineView)
    requires
        parse_spec(text) == Ok::<BaselineView, Seq<char>>(b),
        b.repos.contains(repo),
    ensures
        offboard_spec(text, repo) matches Ok(out) && offboard_spec(out, repo) == Err::<
            Seq<char>,
            Seq<char>,
        >(repo + " is not in the baseline"@),
{
    lemma_offboard_unwatches(text, repo, b);
    let left = b.repos.filter(not_repo(repo));
    if left.contains(repo) {
        let i = choose|i: int| 0 <= i < left.len() && left[i] == repo;
        b.repos.lemma_filter_pred(not_repo(repo), i);
    }
}

/// Fields joined with spaces start and end with a character of a field.
proof fn lemma_join_ends_in_word(ws: Seq<Seq<char>>)
    requires
        ws.len() > 0,
        forall|i: int| 0 <= i < ws.len() ==> is_word(#[trigger] ws[i]),
    ensures
        join(ws, " "@).len() > 0,
        !is_ws(join(ws, " "@).last()),
        !is_ws(join(ws, " "@)[0]),
    decreases ws.len(),
{
    if ws.len() == 1 {
        assert(is_word(ws[0]));
        assert(ws[0][ws[0].len() - 1] == ws[0].last());
    } else {
        let init = ws.drop_last();
        assert forall|i: int| 0 <= i < init.len() implies is_word(#[trigger] init[i]) by {
            assert(init[i] == ws[i]);
        }
        lemma_join_ends_in_word(init);
        let last = ws.last();
        assert(is_word(last));
        let a = join(init, " "@) + " "@;
        assert(join(ws, " "@) == a + last);
        assert((a + last).last() == last[last.len() - 1]);
        assert((a + last)[0] == join(init, " "@)[0]);
    }
}

/// What offboarding leaves of a `file` line scoped to some repositories, as
/// the line it is: the same line up to its list, the kept names as its list.
proof fn lemma_rescoped(l: Seq<char>, i: int, kept: Seq<Seq<char>>)
    requires
        is_scope_start(l, i),
        words_of(l).len() >= 2,
        kept.len() > 0,
        forall|k: int| 0 <= k < kept.len() ==> is_word(#[trigger] kept[k]),
    ensures
        ({
            let l1 = l.take(i) + join(kept, " "@);
            &&& words_of(l1) == words_of(l.take(i)) + kept
            &&& words_of(l1)[0] == words_of(l)[0]
            &&& words_of(l1)[1] == words_of(l)[1]
            &&& words_of(l1).len() >= 2
            &&& scope_start_spec(l1) == Some(i)
            &&& l1.take(i) == l.take(i)
            &&& words_of(l1.skip(i)) == kept
        }),
{
    let head = l.take(i);
    let j = join(kept, " "@);
    let l1 = head + j;
    lemma_file_line_split(l, i);
    lemma_join_ends_in_word(kept);
    lemma_words_join(kept);
    assert(head.last() == l[i - 1]);
    lemma_words_append(head, j, seq![]);
    assert(l1.take(i) =~= head);
    assert(l1.skip(i) =~= j);
    assert(l1[i] == j[0]);
    assert(l1[i - 1] == l[i - 1]);
    assert(is_scope_start(l1, i));
    let k = choose|k: int| is_scope_start(l1, k);
    lemma_scope_start_unique(l1, i, k);
    assert(words_of(l) == words_of(head) + words_of(l.skip(i)));
    assert(words_of(l1)[0] == words_of(head)[0]);
    assert(words_of(l1)[1] == words_of(head)[1]);
}

/// A trailing `\r` on a line changes nothing offboarding decides, and is
/// not on anything offboarding writes in its place.
proof fn lemma_offboarded_strip(l: Seq<char>, repo: Seq<char>)
    ensures
        offboarded_line(strip_cr(l), repo) == match offboarded_line(l, repo) {
            Some(x) => Some(strip_cr(x)),
            None => None,
        },
{
    let s = strip_cr(l);
    lemma_words_strip_cr(l);
    assert forall|i: int| is_scope_start(s, i) <==> is_scope_start(l, i) by {
        if s != l {
            if 0 <= i < s.len() {
                assert(s.take(i) =~= l.take(i));
                assert(s[i] == l[i]);
                if i > 0 {
                    assert(s[i - 1] == l[i - 1]);
                }
            }
        }
    }
    if exists|i: int| is_scope_start(l, i) {
        let i = choose|i: int| is_scope_start(l, i);
        let j = choose|j: int| is_scope_start(s, j);
        lemma_scope_start_unique(l, i, j);
        assert(scope_start_spec(s) == scope_start_spec(l));
        lemma_file_line_split(l, i);
        if s != l {
            assert(s.take(i) =~= l.take(i));
            assert(strip_cr(l.skip(i)) =~= s.skip(i));
            lemma_words_strip_cr(l.skip(i));
        }
        let kept = words_of(l.skip(i)).filter(not_repo(repo));
        if kept.len() > 0 && words_of(l).len() >= 2 {
            lemma_words_are_words(l.skip(i), seq![]);
            lemma_filter_keeps_words(words_of(l.skip(i)), not_repo(repo));
            lemma_join_ends_in_word(kept);
            let x = l.take(i) + join(kept, " "@);
            assert(x.last() == join(kept, " "@).last());
            assert(strip_cr(x) == x);
        }
    } else {
        assert(scope_start_spec(s) is None);
    }
}

/// Offboarding `a` and then `b` from one line.
pub open spec fn offboarded_twice(l: Seq<char>, a: Seq<char>, b: Seq<char>) -> Option<Seq<char>> {
    match offboarded_line(l, a) {
        Some(x) => offboarded_line(x, b),
        None => None,
    }
}

/// `offboarded_twice` for `a` then `b`.
pub open spec fn offboard_twice_for(a: Seq<char>, b: Seq<char>) -> spec_fn(Seq<char>) -> Option<Seq<char>> {
    |l: Seq<char>| offboarded_twice(l, a, b)
}

/// Filtering by two predicates in either order keeps the same elements.
proof fn lemma_filter_commutes(s: Seq<Seq<char>>, p: spec_fn(Seq<char>) -> bool, q: spec_fn(Seq<char>) -> bool)
    ensures
        s.filter(p).filter(q) == s.filter(q).filter(p),
    decreases s.len(),
{
    if s.len() > 0 {
        let init = s.drop_last();
        let x = s.last();
        lemma_filter_commutes(init, p, q);
        assert(init.push(x) =~= s);
        init.lemma_filter_push(x, p);
        init.lemma_filter_push(x, q);
        init.filter(p).lemma_filter_push(x, q);
        init.filter(q).lemma_filter_push(x, p);
    }
}

/// On one line, offboarding two repositories in either order leaves the
/// same.
proof fn lemma_offboarded_line_commutes(l: Seq<char>, a: Seq<char>, b: Seq<char>)
    ensures
        offboarded_twice(l, a, b) == offboarded_twice(l, b, a),
{
    reveal_strlit("repo");
    reveal_strlit("file");
    let w = words_of(l);
    if w.len() >= 2 && w[0] == "file"@ {
        if exists|i: int| is_scope_start(l, i) {
            let i = choose|i: int| is_scope_start(l, i);
            assert(scope_start_spec(l) == Some(i));
            let sc = words_of(l.skip(i));
            lemma_words_are_words(l.skip(i), seq![]);
            let pa = not_repo(a);
            let pb = not_repo(b);
            lemma_filter_keeps_words(sc, pa);
            lemma_filter_keeps_words(sc, pb);
            lemma_filter_keeps_words(sc.filter(pa), pb);
            lemma_filter_keeps_words(sc.filter(pb), pa);
            lemma_filter_commutes(sc, pa, pb);
            let ka = sc.filter(pa);
            let kb = sc.filter(pb);
            if ka.len() > 0 {
                lemma_rescoped(l, i, ka);
            }
            if kb.len() > 0 {
                lemma_rescoped(l, i, kb);
            }
            if ka.len() == 0 {
                assert(ka.filter(pb) =~= Seq::<Seq<char>>::empty()) by {
                    reveal(Seq::filter);
                }
            }
            if kb.len() == 0 {
                assert(kb.filter(pa) =~= Seq::<Seq<char>>::empty()) by {
                    reveal(Seq::filter);
                }
            }
        } else {
            assert(scope_start_spec(l) is None);
        }
    }
}

/// Offboarding from lines read back without their trailing `\r` leaves
/// those lines' results without it.
proof fn lemma_offboarded_lines_strip(ls: Seq<Seq<char>>, repo: Seq<char>)
    ensures
        ls.map_values(|l: Seq<char>| strip_cr(l)).filter_map(offboard_for(repo)) == ls.filter_map(
            offboard_for(repo),
        ).map_values(|l: Seq<char>| strip_cr(l)),
    decreases ls.len(),
{
    let f = offboard_for(repo);
    let m = ls.map_values(|l: Seq<char>| strip_cr(l));
    if ls.len() == 0 {
        assert(m.filter_map(f) =~= Seq::<Seq<char>>::empty());
        assert(ls.filter_map(f).map_values(|l: Seq<char>| strip_cr(l)) =~= Seq::<Seq<char>>::empty());
    } else {
        let init = ls.drop_last();
        lemma_offboarded_lines_strip(init, repo);
        assert(m.drop_last() =~= init.map_values(|l: Seq<char>| strip_cr(l)));
        assert(m.last() == strip_cr(ls.last()));
        lemma_offboarded_strip(ls.last(), repo);
        let r0 = init.filter_map(f);
        match f(ls.last()) {
            Some(x) => {
                assert(ls.filter_map(f) == r0 + seq![x]);
                assert((r0 + seq![x]).map_values(|l: Seq<char>| strip_cr(l)) =~= r0.map_values(
                    |l: Seq<char>| strip_cr(l),
                ) + seq![strip_cr(x)]);
            },
            None => {},
        }
    }
}

/// Offboarding `a` from the lines, then `b` from what is left, is offboarding
/// both from each line.
proof fn lemma_offboarded_lines_twice(ls: Seq<Seq<char>>, a: Seq<char>, b: Seq<char>)
    ensures
        offboarded_lines(offboarded_lines(ls, a), b) == ls.filter_map(offboard_twice_for(a, b)),
    decreases ls.len(),
{
    let fa = offboard_for(a);
    let fb = offboard_for(b);
    let g = offboard_twice_for(a, b);
    if ls.len() == 0 {
        assert(ls.filter_map(fa) =~= Seq::<Seq<char>>::empty());
        assert(ls.filter_map(fa).filter_map(fb) =~= Seq::<Seq<char>>::empty());
        assert(ls.filter_map(g) =~= Seq::<Seq<char>>::empty());
    } else {
        let init = ls.drop_last();
        lemma_offboarded_lines_twice(init, a, b);
        let r0 = init.filter_map(fa);
        match fa(ls.last()) {
            Some(x) => {
                let r = r0 + seq![x];
                assert(ls.filter_map(fa) == r);
                assert(r.drop_last() =~= r0);
                assert(r.last() == x);
            },
            None => {},
        }
    }
}

/// The text a list of lines is written out as, each line without a trailing
/// `\r`.
pub open spec fn written(ls: Seq<Seq<char>>) -> Seq<char> {
    join(ls.map_values(|l: Seq<char>| strip_cr(l)), "\n"@) + "\n"@
}

/// Offboarding one repository and then another writes the lines that
/// offboarding both from each line of the original text leaves.
proof fn lemma_offboard_then(text: Seq<char>, a: Seq<char>, b: Seq<char>, base: BaselineView)
    requires
        parse_spec(text) == Ok::<BaselineView, Seq<char>>(base),
        base.repos.contains(a),
        base.repos.contains(b),
        a != b,
    ensures
        offboard_spec(text, a) matches Ok(o) && offboard_spec(o, b) == Ok::<Seq<char>, Seq<char>>(
            written(lines_of(text).filter_map(offboard_twice_for(a, b))),
        ),
{
    reveal_strlit("\n");
    lemma_offboard_unwatches(text, a, base);
    let ls = lines_of(text);
    let l1 = offboarded_lines(ls, a);
    let o = join(l1, "\n"@) + "\n"@;
    assert(offboard_spec(text, a) == Ok::<Seq<char>, Seq<char>>(o));
    let ia = choose|i: int| 0 <= i < base.repos.len() && base.repos[i] == b;
    base.repos.lemma_filter_contains(not_repo(a), ia);
    assert(without_repo(base, a).repos.contains(b));
    lemma_offboarded_lines_twice(ls, a, b);
    let twice = ls.filter_map(offboard_twice_for(a, b));
    assert(offboarded_lines(l1, b) == twice);
    if l1.len() == 0 {
        let e = Seq::<char>::empty();
        assert(o =~= "\n"@);
        assert(o.drop_first() =~= e);
        assert(lines_from(o, e) == seq![strip_cr(e)] + lines_from(e, e));
        assert(lines_of(o) =~= seq![e]);
        let one = seq![e];
        assert(words_of(e) =~= Seq::<Seq<char>>::empty());
        assert(offboarded_line(e, b) == Some(e));
        let fb = offboard_for(b);
        assert(fb(e) == Some(e));
        assert(one.drop_last() =~= Seq::<Seq<char>>::empty());
        assert(one.last() == e);
        assert(one.drop_last().filter_map(fb) =~= Seq::<Seq<char>>::empty());
        assert(one.filter_map(fb) == one.drop_last().filter_map(fb) + seq![e]);
        assert(offboarded_lines(one, b) =~= seq![e]);
        assert(twice =~= Seq::<Seq<char>>::empty()) by {
            assert(l1.filter_map(offboard_for(b)) =~= Seq::<Seq<char>>::empty());
        }
        assert(join(seq![e], "\n"@) == e);
        assert(twice.map_values(|l: Seq<char>| strip_cr(l)) =~= Seq::<Seq<char>>::empty());
    } else {
        lemma_lines_single(text, seq![]);
        lemma_offboarded_lines_single(ls, a);
        lemma_join_terminated(l1);
        lemma_lines_terminated(l1);
        lemma_offboarded_lines_strip(l1, b);
    }
}

/// Offboarding two repositories leaves the same text in either order.
pub proof fn lemma_offboard_commutes(text: Seq<char>, a: Seq<char>, b: Seq<char>, base: BaselineView)
    requires
        parse_spec(text) == Ok::<BaselineView, Seq<char>>(base),
        base.repos.contains(a),
        base.repos.contains(b),
    ensures
        offboard_spec(text, a) matches Ok(oa) && offboard_spec(text, b) matches Ok(ob) && offboard_spec(
            oa,
            b,
        ) == offboard_spec(ob, a),
        a != b ==> (offboard_spec(text, a) matches Ok(oa) && offboard_spec(oa, b) is Ok),
{
    lemma_offboard_unwatches(text, a, base);
    lemma_offboard_unwatches(text, b, base);
    if a != b {
        lemma_offboard_then(text, a, b, base);
        lemma_offboard_then(text, b, a, base);
        assert forall|l: Seq<char>| #[trigger] offboard_twice_for(a, b)(l) == offboard_twice_for(b, a)(l) by {
            lemma_offboarded_line_commutes(l, a, b);
        }
        assert(offboard_twice_for(a, b) =~= offboard_twice_for(b, a));
    }
}

/// A line offboarding never touches: blank, a comment, or any directive
/// other than `repo` and `file`.
pub open spec fn untouched(l: Seq<char>) -> bool {
    words_of(l).len() == 0 || (words_of(l)[0] != "repo"@ && words_of(l)[0] != "file"@)
}

/// Offboarding keeps every line that is neither a `repo` nor a `file`
/// line -- blank lines, comments, settings and the rest -- verbatim.
pub proof fn lemma_untouched_line_kept(l: Seq<char>, repo: Seq<char>)
    requires
        untouched(l),
    ensures
        offboarded_line(l, repo) == Some(l),
{
}

/// Whatever offboarding leaves in place of a line that is not untouched is
/// not untouched either: a `repo` line stays one, a `file` line stays one.
proof fn lemma_touched_stays_touched(l: Seq<char>, repo: Seq<char>)
    requires
        !untouched(l),
    ensures
        offboarded_line(l, repo) matches Some(l2) ==> !untouched(l2),
{
    let w = words_of(l);
    if w.len() >= 2 && w[0] == "file"@ {
        if exists|i: int| is_scope_start(l, i) {
            let i = choose|i: int| is_scope_start(l, i);
            assert(scope_start_spec(l) == Some(i));
            let sc = words_of(l.skip(i));
            let kept = sc.filter(not_repo(repo));
            if kept.len() > 0 {
                lemma_words_are_words(l.skip(i), seq![]);
                lemma_filter_keeps_words(sc, not_repo(repo));
                lemma_rescoped(l, i, kept);
            }
        }
    }
}

/// Offboarding keeps, verbatim and in their order, every line of the text
/// that is neither a `repo` nor a `file` line: blank lines, comments and
/// every other directive survive exactly as written.
pub proof fn lemma_offboard_keeps_untouched(ls: Seq<Seq<char>>, repo: Seq<char>)
    ensures
        offboarded_lines(ls, repo).filter(|l: Seq<char>| untouched(l)) == ls.filter(|l: Seq<char>| untouched(l)),
    decreases ls.len(),
{
    let p = |l: Seq<char>| untouched(l);
    let f = offboard_for(repo);
    if ls.len() == 0 {
        assert(ls.filter_map(f) =~= Seq::<Seq<char>>::empty());
        assert(offboarded_lines(ls, repo).filter(p) =~= Seq::<Seq<char>>::empty()) by {
            reveal(Seq::filter);
        }
    } else {
        let init = ls.drop_last();
        let l = ls.last();
        lemma_offboard_keeps_untouched(init, repo);
        assert(init.push(l) =~= ls);
        init.lemma_filter_push(l, p);
        let r0 = offboarded_lines(init, repo);
        if untouched(l) {
            lemma_untouched_line_kept(l, repo);
            assert(offboarded_lines(ls, repo) == r0 + seq![l]);
            assert(r0 + seq![l] =~= r0.push(l));
            r0.lemma_filter_push(l, p);
        } else {
            lemma_touched_stays_touched(l, repo);
            match f(l) {
                Some(l2) => {
                    assert(offboarded_lines(ls, repo) == r0 + seq![l2]);
                    assert(r0 + seq![l2] =~= r0.push(l2));
                    r0.lemma_filter_push(l2, p);
                },
                None => {
                    assert(offboarded_lines(ls, repo) == r0);
                },
            }
        }
    }
}

} // verus!
