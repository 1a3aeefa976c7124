//! Text as the baseline format sees it: lines, whitespace-separated fields,
//! trimmed pieces and decimal numbers, each with the sequence-of-characters
//! model that the rest of the crate states its contracts over.
use vstd::prelude::*;

verus! {

/// Unicode `White_Space`, the set that `char::is_whitespace` tests for.
pub open spec fn is_ws(c: char) -> bool {
    ||| c == '\t' || c == '\n' || c == '\u{0B}' || c == '\u{0C}' || c == '\r' || c == ' '
    ||| c == '\u{85}' || c == '\u{A0}' || c == '\u{1680}'
    ||| ('\u{2000}' as int <= c as int && c as int <= '\u{200A}' as int)
    ||| c == '\u{2028}' || c == '\u{2029}' || c == '\u{202F}' || c == '\u{205F}'
    ||| c == '\u{3000}'
}

pub fn is_whitespace(c: char) -> (b: bool)
    ensures
        b == is_ws(c),
{
    c == '\t' || c == '\n' || c == '\u{0B}' || c == '\u{0C}' || c == '\r' || c == ' ' || c
        == '\u{85}' || c == '\u{A0}' || c == '\u{1680}' || ('\u{2000}' <= c && c <= '\u{200A}')
        || c == '\u{2028}' || c == '\u{2029}' || c == '\u{202F}' || c == '\u{205F}' || c
        == '\u{3000}'
}

/// A line ending in `\r\n` loses the `\r` with the `\n`.
pub open spec fn strip_cr(l: Seq<char>) -> Seq<char> {
    if l.len() > 0 && l.last() == '\r' {
        l.drop_last()
    } else {
        l
    }
}

/// The lines of `s`, given that the line being read so far is `cur`: a line
/// ends at `\n` (and a `\r` just before it goes with it), and a final line
/// needs no terminator but is not produced when it would be empty.
pub open spec fn lines_from(s: Seq<char>, cur: Seq<char>) -> Seq<Seq<char>>
    decreases s.len(),
{
    if s.len() == 0 {
        if cur.len() == 0 {
            seq![]
        } else {
            seq![cur]
        }
    } else if s[0] == '\n' {
        seq![strip_cr(cur)] + lines_from(s.drop_first(), seq![])
    } else {
        lines_from(s.drop_first(), cur.push(s[0]))
    }
}

/// The lines of a text, as `str::lines` gives them.
pub open spec fn lines_of(s: Seq<char>) -> Seq<Seq<char>> {
    lines_from(s, seq![])
}

/// The word being read, once a separator or the end closes it.
pub open spec fn close_word(cur: Seq<char>) -> Seq<Seq<char>> {
    if cur.len() == 0 {
        seq![]
    } else {
        seq![cur]
    }
}

/// The maximal runs of non-whitespace in `s`, given that the run being read
/// so far is `cur`.
pub open spec fn words_from(s: Seq<char>, cur: Seq<char>) -> Seq<Seq<char>>
    decreases s.len(),
{
    if s.len() == 0 {
        close_word(cur)
    } else if is_ws(s[0]) {
        close_word(cur) + words_from(s.drop_first(), seq![])
    } else {
        words_from(s.drop_first(), cur.push(s[0]))
    }
}

/// The whitespace-separated fields of a text, as `str::split_whitespace`
/// gives them.
pub open spec fn words_of(s: Seq<char>) -> Seq<Seq<char>> {
    words_from(s, seq![])
}

/// A field: not empty, and no whitespace in it.
pub open spec fn is_word(w: Seq<char>) -> bool {
    w.len() > 0 && forall|i: int| 0 <= i < w.len() ==> !is_ws(#[trigger] w[i])
}

/// `s` with its leading whitespace removed.
pub open spec fn trim_start(s: Seq<char>) -> Seq<char>
    decreases s.len(),
{
    if s.len() > 0 && is_ws(s[0]) {
        trim_start(s.drop_first())
    } else {
        s
    }
}

/// `s` with its trailing whitespace removed.
pub open spec fn trim_end(s: Seq<char>) -> Seq<char>
    decreases s.len(),
{
    if s.len() > 0 && is_ws(s.last()) {
        trim_end(s.drop_last())
    } else {
        s
    }
}

/// `s` without whitespace at either end, as `str::trim` gives it.
pub open spec fn trim(s: Seq<char>) -> Seq<char> {
    trim_end(trim_start(s))
}

/// The pieces joined, `sep` between each two.
pub open spec fn join(xs: Seq<Seq<char>>, sep: Seq<char>) -> Seq<char>
    decreases xs.len(),
{
    if xs.len() == 0 {
        seq![]
    } else if xs.len() == 1 {
        xs[0]
    } else {
        join(xs.drop_last(), sep) + sep + xs.last()
    }
}

/// The digit for a value below ten.
pub open spec fn digit(d: nat) -> char {
    if d == 0 {
        '0'
    } else if d == 1 {
        '1'
    } else if d == 2 {
        '2'
    } else if d == 3 {
        '3'
    } else if d == 4 {
        '4'
    } else if d == 5 {
        '5'
    } else if d == 6 {
        '6'
    } else if d == 7 {
        '7'
    } else if d == 8 {
        '8'
    } else {
        '9'
    }
}

/// `n` in decimal, without leading zeros.
pub open spec fn decimal(n: nat) -> Seq<char>
    decreases n,
{
    if n < 10 {
        seq![digit(n)]
    } else {
        decimal(n / 10).push(digit(n % 10))
    }
}

/// The views of a vector of character vectors.
pub open spec fn char_rows(v: Seq<Vec<char>>) -> Seq<Seq<char>> {
    v.map_values(|r: Vec<char>| r@)
}

/// The views of a vector of strings.
pub open spec fn string_views(v: Seq<String>) -> Seq<Seq<char>> {
    v.map_values(|s: String| s@)
}

/// `String::push`: the character is appended to the end of the string.
#[verifier::external_body]
fn push_char(s: &mut String, c: char)
    ensures
        final(s)@ == old(s)@.push(c),
{
    s.push(c);
}

/// The characters of a text.
pub fn chars_of(text: &str) -> (v: Vec<char>)
    ensures
        v@ == text@,
{
    let mut v: Vec<char> = Vec::new();
    for c in it: text.chars()
        invariant
            v@ == it.seq().take(it.index() as int),
            it.seq() == text@,
    {
        v.push(c);
    }
    v
}

/// A string holding the given characters.
pub fn string_of(cs: &Vec<char>) -> (s: String)
    ensures
        s@ == cs@,
{
    let mut s = String::new();
    for i in 0..cs.len()
        invariant
            s@ == cs@.take(i as int),
    {
        push_char(&mut s, cs[i]);
        assert(cs@.take(i + 1) == cs@.take(i as int).push(cs@[i as int]));
    }
    assert(cs@.take(cs.len() as int) == cs@);
    s
}

/// Whether two character sequences are equal.
pub fn same_chars(a: &Vec<char>, b: &Vec<char>) -> (r: bool)
    ensures
        r == (a@ == b@),
{
    if a.len() != b.len() {
        return false;
    }
    let mut i: usize = 0;
    while i < a.len()
        invariant
            a.len() == b.len(),
            i <= a.len(),
            forall|j: int| 0 <= j < i ==> a@[j] == b@[j],
        decreases a.len() - i,
    {
        if a[i] != b[i] {
            return false;
        }
        i += 1;
    }
    assert(a@ =~= b@);
    true
}

/// Whether a character sequence spells the given text.
pub fn chars_are(a: &Vec<char>, s: &str) -> (r: bool)
    ensures
        r == (a@ == s@),
{
    let b = chars_of(s);
    same_chars(a, &b)
}

pub fn strip_cr_exec(l: Vec<char>) -> (r: Vec<char>)
    ensures
        r@ == strip_cr(l@),
{
    let mut l = l;
    if l.len() > 0 && l[l.len() - 1] == '\r' {
        l.pop();
    }
    l
}

/// The lines of a text, as `str::lines` gives them.
pub fn split_lines(text: &Vec<char>) -> (ls: Vec<Vec<char>>)
    ensures
        char_rows(ls@) == lines_of(text@),
{
    let mut ls: Vec<Vec<char>> = Vec::new();
    let mut cur: Vec<char> = Vec::new();
    let mut i: usize = 0;
    assert(text@.skip(0) =~= text@);
    assert(char_rows(ls@) =~= Seq::<Seq<char>>::empty());
    assert(cur@ =~= Seq::<char>::empty());
    while i < text.len()
        invariant
            i <= text.len(),
            lines_of(text@) == char_rows(ls@) + lines_from(text@.skip(i as int), cur@),
        decreases text.len() - i,
    {
        let c = text[i];
        let ghost rest = text@.skip(i as int);
        assert(rest[0] == c);
        assert(rest.drop_first() =~= text@.skip(i + 1));
        if c == '\n' {
            let line = strip_cr_exec(cur);
            let ghost lv = line@;
            ls.push(line);
            assert(char_rows(ls@) =~= char_rows(ls@.drop_last()).push(lv));
            cur = Vec::new();
            assert(cur@ =~= Seq::<char>::empty());
        } else {
            cur.push(c);
        }
        i += 1;
    }
    assert(text@.skip(i as int) =~= Seq::<char>::empty());
    if cur.len() > 0 {
        let ghost cv = cur@;
        ls.push(cur);
        assert(char_rows(ls@) =~= char_rows(ls@.drop_last()).push(cv));
    }
    assert(char_rows(ls@) =~= lines_of(text@));
    ls
}

/// The whitespace-separated fields of a text, as `str::split_whitespace`
/// gives them.
pub fn split_words(s: &Vec<char>) -> (ws: Vec<Vec<char>>)
    ensures
        char_rows(ws@) == words_of(s@),
        forall|i: int| 0 <= i < ws.len() ==> is_word(#[trigger] ws@[i]@),
{
    let mut ws: Vec<Vec<char>> = Vec::new();
    let mut cur: Vec<char> = Vec::new();
    let mut i: usize = 0;
    assert(s@.skip(0) =~= s@);
    assert(char_rows(ws@) =~= Seq::<Seq<char>>::empty());
    assert(cur@ =~= Seq::<char>::empty());
    while i < s.len()
        invariant
            i <= s.len(),
            words_of(s@) == char_rows(ws@) + words_from(s@.skip(i as int), cur@),
        decreases s.len() - i,
    {
        let c = s[i];
        let ghost rest = s@.skip(i as int);
        assert(rest[0] == c);
        assert(rest.drop_first() =~= s@.skip(i + 1));
        if is_whitespace(c) {
            if cur.len() > 0 {
                let ghost cv = cur@;
                ws.push(cur);
                assert(char_rows(ws@) =~= char_rows(ws@.drop_last()).push(cv));
                cur = Vec::new();
            }
            assert(cur@ =~= Seq::<char>::empty());
        } else {
            cur.push(c);
        }
        i += 1;
    }
    assert(s@.skip(i as int) =~= Seq::<char>::empty());
    if cur.len() > 0 {
        let ghost cv = cur@;
        ws.push(cur);
        assert(char_rows(ws@) =~= char_rows(ws@.drop_last()).push(cv));
    }
    assert(char_rows(ws@) =~= words_of(s@));
    proof {
        lemma_words_are_words(s@, seq![]);
        assert forall|i: int| 0 <= i < ws.len() implies is_word(#[trigger] ws@[i]@) by {
            assert(ws@[i]@ == char_rows(ws@)[i]);
        }
    }
    ws
}

/// Appends characters to a character vector.
pub fn extend_chars(dst: &mut Vec<char>, src: &Vec<char>)
    ensures
        final(dst)@ == old(dst)@ + src@,
{
    for i in 0..src.len()
        invariant
            dst@ == old(dst)@ + src@.take(i as int),
    {
        dst.push(src[i]);
        assert(src@.take(i + 1) == src@.take(i as int).push(src@[i as int]));
    }
    assert(src@.take(src.len() as int) == src@);
}

/// The pieces joined, `sep` between each two.
pub fn join_chars(xs: &Vec<Vec<char>>, sep: &Vec<char>) -> (r: Vec<char>)
    ensures
        r@ == join(char_rows(xs@), sep@),
{
    let mut r: Vec<char> = Vec::new();
    let ghost rows = char_rows(xs@);
    for i in 0..xs.len()
        invariant
            rows == char_rows(xs@),
            r@ == join(rows.take(i as int), sep@),
    {
        let ghost before = r@;
        if i > 0 {
            extend_chars(&mut r, sep);
        }
        extend_chars(&mut r, &xs[i]);
        assert(rows.take(i + 1).drop_last() =~= rows.take(i as int));
        assert(rows.take(i + 1).last() == xs@[i as int]@);
        if i == 0 {
            assert(r@ =~= join(rows.take(1), sep@));
        } else {
            assert(r@ =~= before + sep@ + xs@[i as int]@);
        }
    }
    assert(rows.take(xs.len() as int) =~= rows);
    r
}

pub fn digit_char(d: usize) -> (c: char)
    requires
        d < 10,
    ensures
        c == digit(d as nat),
{
    if d == 0 {
        '0'
    } else if d == 1 {
        '1'
    } else if d == 2 {
        '2'
    } else if d == 3 {
        '3'
    } else if d == 4 {
        '4'
    } else if d == 5 {
        '5'
    } else if d == 6 {
        '6'
    } else if d == 7 {
        '7'
    } else if d == 8 {
        '8'
    } else {
        '9'
    }
}

/// `n` in decimal.
pub fn decimal_chars(n: usize) -> (r: Vec<char>)
    ensures
        r@ == decimal(n as nat),
    decreases n,
{
    if n < 10 {
        let mut r = Vec::new();
        r.push(digit_char(n));
        assert(r@ =~= decimal(n as nat));
        r
    } else {
        let mut r = decimal_chars(n / 10);
        r.push(digit_char(n % 10));
        r
    }
}

/// The index of the first non-whitespace character, or the length.
fn first_non_ws(s: &Vec<char>) -> (k: usize)
    ensures
        k <= s.len(),
        trim_start(s@) == s@.skip(k as int),
        k < s.len() ==> !is_ws(s@[k as int]),
{
    let mut k: usize = 0;
    assert(s@.skip(0) =~= s@);
    while k < s.len() && is_whitespace(s[k])
        invariant
            k <= s.len(),
            trim_start(s@) == trim_start(s@.skip(k as int)),
        decreases s.len() - k,
    {
        assert(s@.skip(k as int).drop_first() =~= s@.skip(k + 1));
        k += 1;
    }
    k
}

/// `s` without whitespace at either end, as `str::trim` gives it.
pub fn trim_chars(s: &Vec<char>) -> (r: Vec<char>)
    ensures
        r@ == trim(s@),
{
    let a = first_non_ws(s);
    let mut b: usize = s.len();
    let ghost t = s@.skip(a as int);
    assert(t.take(t.len() as int) =~= t);
    while b > a && is_whitespace(s[b - 1])
        invariant
            a <= b <= s.len(),
            t == s@.skip(a as int),
            trim_end(t) == trim_end(t.take(b - a)),
        decreases b,
    {
        assert(t.take(b - a).drop_last() =~= t.take(b - a - 1));
        b -= 1;
    }
    let mut r: Vec<char> = Vec::new();
    let mut i = a;
    while i < b
        invariant
            a <= i <= b <= s.len(),
            r@ == s@.subrange(a as int, i as int),
        decreases b - i,
    {
        r.push(s[i]);
        assert(s@.subrange(a as int, i + 1) =~= s@.subrange(a as int, i as int).push(s@[i as int]));
        i += 1;
    }
    assert(t.take(b - a) =~= s@.subrange(a as int, b as int));
    r
}

/// Every field is a word: not empty, and no whitespace in it.
pub proof fn lemma_words_are_words(s: Seq<char>, cur: Seq<char>)
    requires
        forall|j: int| 0 <= j < cur.len() ==> !is_ws(#[trigger] cur[j]),
    ensures
        forall|i: int|
            0 <= i < words_from(s, cur).len() ==> is_word(#[trigger] words_from(s, cur)[i]),
    decreases s.len(),
{
    if s.len() == 0 {
        if cur.len() > 0 {
            assert(words_from(s, cur) == seq![cur]);
            assert(is_word(cur));
        }
    } else if is_ws(s[0]) {
        lemma_words_are_words(s.drop_first(), seq![]);
        let a = close_word(cur);
        let b = words_from(s.drop_first(), seq![]);
        assert(words_from(s, cur) == a + b);
        assert forall|i: int| 0 <= i < (a + b).len() implies is_word(#[trigger] (a + b)[i]) by {
            if i < a.len() {
                assert((a + b)[i] == cur);
            } else {
                assert((a + b)[i] == b[i - a.len()]);
            }
        }
    } else {
        let c2 = cur.push(s[0]);
        assert forall|j: int| 0 <= j < c2.len() implies !is_ws(#[trigger] c2[j]) by {
            if j < cur.len() {
                assert(c2[j] == cur[j]);
            }
        }
        lemma_words_are_words(s.drop_first(), c2);
        assert(words_from(s, cur) == words_from(s.drop_first(), c2));
    }
}

/// The pieces of `s` between occurrences of `sep`, given that the piece
/// being read so far is `cur`.
pub open spec fn pieces_from(s: Seq<char>, sep: char, cur: Seq<char>) -> Seq<Seq<char>>
    decreases s.len(),
{
    if s.len() == 0 {
        seq![cur]
    } else if s[0] == sep {
        seq![cur] + pieces_from(s.drop_first(), sep, seq![])
    } else {
        pieces_from(s.drop_first(), sep, cur.push(s[0]))
    }
}

/// The pieces of `s` between occurrences of `sep`, as `str::split` gives
/// them: empty pieces included, and one piece when `sep` does not occur.
pub open spec fn pieces(s: Seq<char>, sep: char) -> Seq<Seq<char>> {
    pieces_from(s, sep, seq![])
}

/// The pieces of `s` between occurrences of `sep`.
pub fn split_on(s: &Vec<char>, sep: char) -> (ps: Vec<Vec<char>>)
    ensures
        char_rows(ps@) == pieces(s@, sep),
{
    let mut ps: Vec<Vec<char>> = Vec::new();
    let mut cur: Vec<char> = Vec::new();
    let mut i: usize = 0;
    assert(s@.skip(0) =~= s@);
    assert(char_rows(ps@) =~= Seq::<Seq<char>>::empty());
    assert(cur@ =~= Seq::<char>::empty());
    while i < s.len()
        invariant
            i <= s.len(),
            pieces(s@, sep) == char_rows(ps@) + pieces_from(s@.skip(i as int), sep, cur@),
        decreases s.len() - i,
    {
        let c = s[i];
        let ghost rest = s@.skip(i as int);
        assert(rest[0] == c);
        assert(rest.drop_first() =~= s@.skip(i + 1));
        if c == sep {
            let ghost cv = cur@;
            ps.push(cur);
            assert(char_rows(ps@) =~= char_rows(ps@.drop_last()).push(cv));
            cur = Vec::new();
            assert(cur@ =~= Seq::<char>::empty());
        } else {
            cur.push(c);
        }
        i += 1;
    }
    assert(s@.skip(i as int) =~= Seq::<char>::empty());
    let ghost cv = cur@;
    ps.push(cur);
    assert(char_rows(ps@) =~= char_rows(ps@.drop_last()).push(cv));
    assert(char_rows(ps@) =~= pieces(s@, sep));
    ps
}

/// Whether one of the rows spells `x`.
pub fn contains_row(rows: &Vec<Vec<char>>, x: &Vec<char>) -> (r: bool)
    ensures
        r == char_rows(rows@).contains(x@),
{
    let ghost v = char_rows(rows@);
    for i in 0..rows.len()
        invariant
            v == char_rows(rows@),
            forall|j: int| 0 <= j < i ==> v[j] != x@,
    {
        if same_chars(&rows[i], x) {
            assert(v[i as int] == x@);
            return true;
        }
    }
    false
}

/// Splitting a text at a field boundary splits its fields: `a + b` has the
/// fields of `a` and then those of `b` when whitespace separates them, when
/// either is empty, or when `a` is empty and no field is being read.
pub proof fn lemma_words_append(a: Seq<char>, b: Seq<char>, cur: Seq<char>)
    requires
        b.len() == 0 || is_ws(b[0]) || (a.len() > 0 && is_ws(a.last())) || (a.len() == 0
            && cur.len() == 0),
    ensures
        words_from(a + b, cur) == words_from(a, cur) + words_of(b),
    decreases a.len(),
{
    if a.len() == 0 {
        assert(a + b =~= b);
        if b.len() == 0 {
            assert(words_of(b) == Seq::<Seq<char>>::empty());
            assert(words_from(a, cur) + words_of(b) =~= words_from(a, cur));
        } else {
            if cur.len() > 0 {
                // b starts with whitespace
                assert(words_from(b, cur) == close_word(cur) + words_from(b.drop_first(), seq![]));
                assert(words_of(b) == close_word(seq![]) + words_from(b.drop_first(), seq![]));
                assert(close_word(Seq::<char>::empty()) =~= Seq::<Seq<char>>::empty());
                assert(words_of(b) =~= words_from(b.drop_first(), seq![]));
            } else {
                assert(cur =~= Seq::<char>::empty());
            }
            assert(words_from(a, cur) == close_word(cur));
            if cur.len() == 0 {
                assert(close_word(cur) =~= Seq::<Seq<char>>::empty());
            }
            assert(words_from(a, cur) + words_of(b) =~= words_from(a + b, cur));
        }
    } else {
        let ab = a + b;
        assert(ab[0] == a[0]);
        assert(ab.drop_first() =~= a.drop_first() + b);
        if is_ws(a[0]) {
            lemma_words_append(a.drop_first(), b, seq![]);
            assert(words_from(ab, cur) == close_word(cur) + words_from(ab.drop_first(), seq![]));
            assert(words_from(a, cur) == close_word(cur) + words_from(a.drop_first(), seq![]));
            assert(words_from(ab, cur) =~= words_from(a, cur) + words_of(b));
        } else {
            if a.len() == 1 {
                assert(a.last() == a[0]);
            }
            lemma_words_append(a.drop_first(), b, cur.push(a[0]));
            assert(words_from(ab, cur) == words_from(ab.drop_first(), cur.push(a[0])));
            assert(words_from(a, cur) == words_from(a.drop_first(), cur.push(a[0])));
        }
    }
}

/// Extending the field being read does not add a field.
pub proof fn lemma_words_extend_len(s: Seq<char>, cur: Seq<char>, c: char)
    requires
        !is_ws(c),
        (s.len() > 0 && !is_ws(s.last())) || (s.len() == 0 && cur.len() > 0),
    ensures
        words_from(s.push(c), cur).len() == words_from(s, cur).len(),
    decreases s.len(),
{
    let sc = s.push(c);
    if s.len() == 0 {
        assert(sc.drop_first() =~= Seq::<char>::empty());
        assert(words_from(sc, cur) == words_from(sc.drop_first(), cur.push(c)));
    } else {
        assert(sc[0] == s[0]);
        assert(sc.drop_first() =~= s.drop_first().push(c));
        if is_ws(s[0]) {
            if s.len() == 1 {
                assert(s.last() == s[0]);
            }
            assert(s.drop_first().last() == s.last());
            lemma_words_extend_len(s.drop_first(), seq![], c);
        } else {
            if s.len() > 1 {
                assert(s.drop_first().last() == s.last());
            }
            lemma_words_extend_len(s.drop_first(), cur.push(s[0]), c);
        }
    }
}

/// How many fields a text has once one more character is read.
pub proof fn lemma_words_push_len(t: Seq<char>, c: char)
    ensures
        words_of(t.push(c)).len() == words_of(t).len() + (if !is_ws(c) && (t.len() == 0 || is_ws(
            t.last(),
        )) {
            1int
        } else {
            0int
        }),
{
    let one = seq![c];
    assert(t.push(c) =~= t + one);
    assert(one.drop_first() =~= Seq::<char>::empty());
    if is_ws(c) {
        lemma_words_append(t, one, seq![]);
        assert(words_of(one) == close_word(seq![]) + words_from(one.drop_first(), seq![]));
        assert(words_of(one) =~= Seq::<Seq<char>>::empty());
    } else if t.len() == 0 || is_ws(t.last()) {
        lemma_words_append(t, one, seq![]);
        assert(words_of(one) == words_from(one.drop_first(), seq![c]));
        assert(words_of(one) =~= seq![seq![c]]);
    } else {
        lemma_words_extend_len(t, seq![], c);
    }
}

/// A field being read is produced at the latest when the text ends.
pub proof fn lemma_words_nonempty(s: Seq<char>, cur: Seq<char>)
    requires
        cur.len() > 0 || (s.len() > 0 && !is_ws(s[0])),
    ensures
        words_from(s, cur).len() >= 1,
    decreases s.len(),
{
    if s.len() > 0 {
        if is_ws(s[0]) {
            assert(words_from(s, cur) == close_word(cur) + words_from(s.drop_first(), seq![]));
        } else {
            lemma_words_nonempty(s.drop_first(), cur.push(s[0]));
        }
    }
}

/// The fields of a single field are itself.
pub proof fn lemma_word_alone(w: Seq<char>, cur: Seq<char>)
    requires
        forall|i: int| 0 <= i < w.len() ==> !is_ws(#[trigger] w[i]),
        w.len() > 0 || cur.len() > 0,
    ensures
        words_from(w, cur) == seq![cur + w],
    decreases w.len(),
{
    if w.len() == 0 {
        assert(cur + w =~= cur);
    } else {
        assert(!is_ws(w[0]));
        let rest = w.drop_first();
        assert forall|i: int| 0 <= i < rest.len() implies !is_ws(#[trigger] rest[i]) by {
            assert(rest[i] == w[i + 1]);
        }
        lemma_word_alone(rest, cur.push(w[0]));
        assert(cur.push(w[0]) + rest =~= cur + w);
    }
}

/// Fields joined by single spaces split back into the same fields.
pub proof fn lemma_words_join(ws: Seq<Seq<char>>)
    requires
        forall|i: int| 0 <= i < ws.len() ==> is_word(#[trigger] ws[i]),
    ensures
        words_of(join(ws, " "@)) == ws,
    decreases ws.len(),
{
    reveal_strlit(" ");
    if ws.len() == 0 {
        assert(words_of(join(ws, " "@)) =~= ws);
    } else if ws.len() == 1 {
        assert(is_word(ws[0]));
        lemma_word_alone(ws[0], seq![]);
        assert(Seq::<char>::empty() + ws[0] =~= ws[0]);
        assert(words_of(join(ws, " "@)) =~= ws);
    } else {
        let init = ws.drop_last();
        assert forall|i: int| 0 <= i < init.len() implies is_word(#[trigger] init[i]) by {
            assert(init[i] == ws[i]);
        }
        lemma_words_join(init);
        let a = join(init, " "@) + " "@;
        let last = ws.last();
        assert(is_word(last));
        assert(a.last() == ' ');
        lemma_words_append(a, last, seq![]);
        lemma_words_append(join(init, " "@), " "@, seq![]);
        let sp = " "@;
        assert(sp.drop_first() =~= Seq::<char>::empty());
        assert(words_of(sp) == close_word(seq![]) + words_from(sp.drop_first(), seq![]));
        assert(words_of(sp) =~= Seq::<Seq<char>>::empty());
        lemma_word_alone(last, seq![]);
        assert(Seq::<char>::empty() + last =~= last);
        assert(join(ws, " "@) == a + last);
        assert(words_of(join(ws, " "@)) =~= ws);
    }
}

/// No `\n` in a text.
pub open spec fn single_line(s: Seq<char>) -> bool {
    forall|i: int| 0 <= i < s.len() ==> #[trigger] s[i] != '\n'
}

/// A trailing `\r` removed changes no field.
pub proof fn lemma_words_strip_cr(l: Seq<char>)
    ensures
        words_of(strip_cr(l)) == words_of(l),
{
    if l.len() > 0 && l.last() == '\r' {
        let x = l.drop_last();
        let r = seq!['\r'];
        assert(l =~= x + r);
        lemma_words_append(x, r, seq![]);
        assert(r.drop_first() =~= Seq::<char>::empty());
        assert(words_of(r) == close_word(seq![]) + words_from(r.drop_first(), seq![]));
        assert(words_of(r) =~= Seq::<Seq<char>>::empty());
        assert(words_of(l) =~= words_of(x));
    }
}

/// No line holds a `\n`.
pub proof fn lemma_lines_single(s: Seq<char>, cur: Seq<char>)
    requires
        single_line(cur),
    ensures
        forall|i: int|
            0 <= i < lines_from(s, cur).len() ==> single_line(#[trigger] lines_from(s, cur)[i]),
    decreases s.len(),
{
    if s.len() == 0 {
        if cur.len() > 0 {
            assert(lines_from(s, cur) == seq![cur]);
        }
    } else if s[0] == '\n' {
        lemma_lines_single(s.drop_first(), seq![]);
        let a = seq![strip_cr(cur)];
        let b = lines_from(s.drop_first(), seq![]);
        assert(lines_from(s, cur) == a + b);
        assert(single_line(strip_cr(cur))) by {
            if cur.len() > 0 && cur.last() == '\r' {
                assert forall|j: int| 0 <= j < strip_cr(cur).len() implies #[trigger] strip_cr(cur)[j] != '\n' by {
                    assert(strip_cr(cur)[j] == cur[j]);
                }
            }
        }
        assert forall|i: int| 0 <= i < (a + b).len() implies single_line(#[trigger] (a + b)[i]) by {
            if i >= 1 {
                assert((a + b)[i] == b[i - 1]);
            }
        }
    } else {
        let c2 = cur.push(s[0]);
        assert forall|j: int| 0 <= j < c2.len() implies #[trigger] c2[j] != '\n' by {
            if j < cur.len() {
                assert(c2[j] == cur[j]);
            }
        }
        lemma_lines_single(s.drop_first(), c2);
        assert(lines_from(s, cur) == lines_from(s.drop_first(), c2));
    }
}

/// The lines of each piece followed by `\n`, in order.
pub open spec fn terminated(ls: Seq<Seq<char>>) -> Seq<char>
    decreases ls.len(),
{
    if ls.len() == 0 {
        seq![]
    } else {
        ls[0] + "\n"@ + terminated(ls.drop_first())
    }
}

/// A line followed by `\n` is read back as that line.
pub proof fn lemma_lines_one(l: Seq<char>, rest: Seq<char>, cur: Seq<char>)
    requires
        single_line(l),
    ensures
        lines_from(l + "\n"@ + rest, cur) == seq![strip_cr(cur + l)] + lines_from(rest, seq![]),
    decreases l.len(),
{
    reveal_strlit("\n");
    let s = l + "\n"@ + rest;
    if l.len() == 0 {
        assert(s[0] == '\n');
        assert(s.drop_first() =~= rest);
        assert(cur + l =~= cur);
    } else {
        assert(s[0] == l[0]);
        assert(l[0] != '\n');
        let l2 = l.drop_first();
        assert forall|j: int| 0 <= j < l2.len() implies #[trigger] l2[j] != '\n' by {
            assert(l2[j] == l[j + 1]);
        }
        assert(s.drop_first() =~= l2 + "\n"@ + rest);
        lemma_lines_one(l2, rest, cur.push(l[0]));
        assert(cur.push(l[0]) + l2 =~= cur + l);
    }
}

/// Lines each followed by `\n` are read back as those lines, less any
/// trailing `\r`.
pub proof fn lemma_lines_terminated(ls: Seq<Seq<char>>)
    requires
        forall|i: int| 0 <= i < ls.len() ==> single_line(#[trigger] ls[i]),
    ensures
        lines_of(terminated(ls)) == ls.map_values(|l: Seq<char>| strip_cr(l)),
    decreases ls.len(),
{
    if ls.len() == 0 {
        assert(lines_of(terminated(ls)) =~= ls.map_values(|l: Seq<char>| strip_cr(l)));
    } else {
        let rest = ls.drop_first();
        assert forall|i: int| 0 <= i < rest.len() implies single_line(#[trigger] rest[i]) by {
            assert(rest[i] == ls[i + 1]);
        }
        lemma_lines_terminated(rest);
        assert(single_line(ls[0]));
        lemma_lines_one(ls[0], terminated(rest), seq![]);
        assert(Seq::<char>::empty() + ls[0] =~= ls[0]);
        assert(lines_of(terminated(ls)) =~= ls.map_values(|l: Seq<char>| strip_cr(l)));
    }
}

proof fn lemma_terminated_push(ls: Seq<Seq<char>>, x: Seq<char>)
    ensures
        terminated(ls.push(x)) == terminated(ls) + x + "\n"@,
    decreases ls.len(),
{
    if ls.len() == 0 {
        assert(ls.push(x).drop_first() =~= Seq::<Seq<char>>::empty());
        assert(terminated(Seq::<Seq<char>>::empty()) == Seq::<char>::empty());
        assert(terminated(ls.push(x)) =~= terminated(ls) + x + "\n"@);
    } else {
        lemma_terminated_push(ls.drop_first(), x);
        assert(ls.push(x).drop_first() =~= ls.drop_first().push(x));
        assert(terminated(ls.push(x)) =~= terminated(ls) + x + "\n"@);
    }
}

/// Lines joined by `\n` with a final `\n` are the lines each followed by
/// `\n`.
pub proof fn lemma_join_terminated(ls: Seq<Seq<char>>)
    requires
        ls.len() > 0,
    ensures
        join(ls, "\n"@) + "\n"@ == terminated(ls),
    decreases ls.len(),
{
    if ls.len() == 1 {
        assert(ls.drop_first() =~= Seq::<Seq<char>>::empty());
        assert(terminated(Seq::<Seq<char>>::empty()) == Seq::<char>::empty());
        assert(join(ls, "\n"@) + "\n"@ =~= terminated(ls));
    } else {
        lemma_join_terminated(ls.drop_last());
        lemma_terminated_push(ls.drop_last(), ls.last());
        assert(ls.drop_last().push(ls.last()) =~= ls);
        assert(join(ls, "\n"@) + "\n"@ =~= terminated(ls));
    }
}

/// Fields joined with spaces hold no `\n`.
pub proof fn lemma_join_single(ws: Seq<Seq<char>>)
    requires
        forall|i: int| 0 <= i < ws.len() ==> is_word(#[trigger] ws[i]),
    ensures
        single_line(join(ws, " "@)),
    decreases ws.len(),
{
    reveal_strlit(" ");
    if ws.len() == 1 {
        assert(is_word(ws[0]));
        assert forall|j: int| 0 <= j < ws[0].len() implies #[trigger] ws[0][j] != '\n' by {
            assert(!is_ws(ws[0][j]));
        }
    } else if ws.len() > 1 {
        let init = ws.drop_last();
        assert forall|i: int| 0 <= i < init.len() implies is_word(#[trigger] init[i]) by {
            assert(init[i] == ws[i]);
        }
        lemma_join_single(init);
        let a = join(init, " "@);
        let last = ws.last();
        assert(is_word(last));
        let j = a + " "@ + last;
        assert forall|k: int| 0 <= k < j.len() implies #[trigger] j[k] != '\n' by {
            if k < a.len() {
                assert(j[k] == a[k]);
            } else if k == a.len() {
                assert(j[k] == ' ');
            } else {
                assert(j[k] == last[k - a.len() - 1]);
                assert(!is_ws(last[k - a.len() - 1]));
            }
        }
    }
}

/// The order of `String`: lexicographic, character by character (UTF-8
/// byte order and code point order agree), a proper prefix first.
pub open spec fn lex_lt(a: Seq<char>, b: Seq<char>) -> bool
    decreases a.len(),
{
    if b.len() == 0 {
        false
    } else if a.len() == 0 {
        true
    } else if a[0] != b[0] {
        (a[0] as int) < (b[0] as int)
    } else {
        lex_lt(a.drop_first(), b.drop_first())
    }
}

/// Strictly increasing: in order, and nothing twice.
pub open spec fn increasing(s: Seq<Seq<char>>) -> bool {
    forall|i: int, j: int| 0 <= i < j < s.len() ==> lex_lt(#[trigger] s[i], #[trigger] s[j])
}

pub proof fn lemma_lex_transitive(a: Seq<char>, b: Seq<char>, c: Seq<char>)
    requires
        lex_lt(a, b),
        lex_lt(b, c),
    ensures
        lex_lt(a, c),
    decreases a.len(),
{
    if a.len() > 0 && b.len() > 0 && c.len() > 0 {
        if a[0] == b[0] && b[0] == c[0] {
            lemma_lex_transitive(a.drop_first(), b.drop_first(), c.drop_first());
        }
    }
}

pub proof fn lemma_lex_total(a: Seq<char>, b: Seq<char>)
    ensures
        a == b || lex_lt(a, b) || lex_lt(b, a),
    decreases a.len(),
{
    if a.len() == 0 && b.len() == 0 {
        assert(a =~= b);
    } else if a.len() > 0 && b.len() > 0 && a[0] == b[0] {
        lemma_lex_total(a.drop_first(), b.drop_first());
        if a.drop_first() == b.drop_first() {
            assert forall|i: int| 0 <= i < a.len() implies a[i] == b[i] by {
                if i > 0 {
                    assert(a[i] == a.drop_first()[i - 1]);
                    assert(b[i] == b.drop_first()[i - 1]);
                }
            }
            assert(a =~= b);
        }
    }
}

/// Whether `a` orders before `b`.
pub fn lex_less(a: &Vec<char>, b: &Vec<char>) -> (r: bool)
    ensures
        r == lex_lt(a@, b@),
{
    let mut i: usize = 0;
    assert(a@.skip(0) =~= a@);
    assert(b@.skip(0) =~= b@);
    while i < a.len() && i < b.len() && a[i] == b[i]
        invariant
            i <= a.len(),
            i <= b.len(),
            lex_lt(a@, b@) == lex_lt(a@.skip(i as int), b@.skip(i as int)),
        decreases a.len() - i,
    {
        assert(a@.skip(i as int).drop_first() =~= a@.skip(i + 1));
        assert(b@.skip(i as int).drop_first() =~= b@.skip(i + 1));
        i += 1;
    }
    if i == b.len() {
        false
    } else if i == a.len() {
        true
    } else {
        a[i] < b[i]
    }
}

/// Adds `x` to a strictly increasing sequence, where it belongs, unless it
/// is there already.
pub fn insert_sorted(s: &mut Vec<Vec<char>>, x: Vec<char>)
    requires
        increasing(char_rows(old(s)@)),
    ensures
        increasing(char_rows(final(s)@)),
        char_rows(final(s)@).to_set() == char_rows(old(s)@).to_set().insert(x@),
{
    let ghost rows = char_rows(s@);
    let mut k: usize = 0;
    while k < s.len() && lex_less(&s[k], &x)
        invariant
            k <= s.len(),
            rows == char_rows(s@),
            forall|i: int| 0 <= i < k ==> lex_lt(#[trigger] rows[i], x@),
        decreases s.len() - k,
    {
        assert(rows[k as int] == s@[k as int]@);
        k += 1;
    }
    if k < s.len() && same_chars(&s[k], &x) {
        assert(rows[k as int] == x@);
        assert(rows.to_set().insert(x@) =~= rows.to_set());
        return;
    }
    proof {
        if k < s.len() {
            assert(rows[k as int] == s@[k as int]@);
            lemma_lex_total(rows[k as int], x@);
        }
    }
    let ghost xv = x@;
    s.insert(k, x);
    let ghost nrows = char_rows(s@);
    assert(nrows =~= rows.insert(k as int, xv));
    assert forall|i: int, j: int| 0 <= i < j < nrows.len() implies lex_lt(#[trigger] nrows[i], #[trigger] nrows[j]) by {
        if j < k {
            assert(nrows[i] == rows[i] && nrows[j] == rows[j]);
        } else if j == k {
            assert(nrows[i] == rows[i]);
        } else if i == k {
            assert(nrows[j] == rows[j - 1]);
            if j - 1 > k {
                assert(lex_lt(rows[k as int], rows[j - 1]));
                lemma_lex_transitive(xv, rows[k as int], rows[j - 1]);
            }
        } else if i < k {
            assert(nrows[i] == rows[i]);
            assert(nrows[j] == rows[j - 1]);
            assert(lex_lt(rows[i], xv));
            if j - 1 > k {
                assert(lex_lt(rows[k as int], rows[j - 1]));
                lemma_lex_transitive(xv, rows[k as int], rows[j - 1]);
            }
            lemma_lex_transitive(rows[i], xv, rows[j - 1]);
        } else {
            assert(nrows[i] == rows[i - 1]);
            assert(nrows[j] == rows[j - 1]);
        }
    }
    assert(nrows.to_set() =~= rows.to_set().insert(xv)) by {
        assert forall|y: Seq<char>| nrows.to_set().contains(y) implies rows.to_set().insert(xv).contains(y) by {
            let i = choose|i: int| 0 <= i < nrows.len() && nrows[i] == y;
            if i < k {
                assert(rows[i] == y);
            } else if i > k {
                assert(rows[i - 1] == y);
            }
        }
        assert forall|y: Seq<char>| rows.to_set().insert(xv).contains(y) implies nrows.to_set().contains(y) by {
            if y == xv {
                assert(nrows[k as int] == xv);
            } else {
                let i = choose|i: int| 0 <= i < rows.len() && rows[i] == y;
                if i < k {
                    assert(nrows[i] == y);
                } else {
                    assert(nrows[i + 1] == y);
                }
            }
        }
    }
}

/// Whether `c` occurs nowhere in `s`.
pub open spec fn lacks(s: Seq<char>, c: char) -> bool {
    forall|i: int| 0 <= i < s.len() ==> #[trigger] s[i] != c
}

proof fn lemma_join_front(xs: Seq<Seq<char>>, sep: Seq<char>)
    requires
        xs.len() >= 2,
    ensures
        join(xs, sep) == xs[0] + sep + join(xs.drop_first(), sep),
    decreases xs.len(),
{
    if xs.len() == 2 {
        let d = xs.drop_first();
        assert(d.len() == 1);
        assert(join(d, sep) == d[0]);
        assert(xs.drop_last().len() == 1);
        assert(join(xs.drop_last(), sep) == xs[0]);
    } else {
        lemma_join_front(xs.drop_last(), sep);
        assert(xs.drop_last().drop_first() =~= xs.drop_first().drop_last());
        assert(xs.drop_first().last() == xs.last());
        assert(join(xs, sep) =~= xs[0] + sep + join(xs.drop_first(), sep));
    }
}

proof fn lemma_pieces_last(x: Seq<char>, sep: char, cur: Seq<char>)
    requires
        lacks(x, sep),
    ensures
        pieces_from(x, sep, cur) == seq![cur + x],
    decreases x.len(),
{
    if x.len() == 0 {
        assert(cur + x =~= cur);
    } else {
        assert(x[0] != sep);
        let rest = x.drop_first();
        assert forall|i: int| 0 <= i < rest.len() implies #[trigger] rest[i] != sep by {
            assert(rest[i] == x[i + 1]);
        }
        lemma_pieces_last(rest, sep, cur.push(x[0]));
        assert(cur.push(x[0]) + rest =~= cur + x);
    }
}

proof fn lemma_pieces_one(x: Seq<char>, sep: char, rest: Seq<char>, cur: Seq<char>)
    requires
        lacks(x, sep),
    ensures
        pieces_from(x + seq![sep] + rest, sep, cur) == seq![cur + x] + pieces_from(rest, sep, seq![]),
    decreases x.len(),
{
    let s = x + seq![sep] + rest;
    if x.len() == 0 {
        assert(s[0] == sep);
        assert(s.drop_first() =~= rest);
        assert(cur + x =~= cur);
    } else {
        assert(s[0] == x[0]);
        assert(x[0] != sep);
        let x2 = x.drop_first();
        assert forall|i: int| 0 <= i < x2.len() implies #[trigger] x2[i] != sep by {
            assert(x2[i] == x[i + 1]);
        }
        assert(s.drop_first() =~= x2 + seq![sep] + rest);
        lemma_pieces_one(x2, sep, rest, cur.push(x[0]));
        assert(cur.push(x[0]) + x2 =~= cur + x);
    }
}

/// Pieces joined by a separator none of them holds split back into the
/// same pieces.
pub proof fn lemma_pieces_join(xs: Seq<Seq<char>>, sep: char)
    requires
        xs.len() > 0,
        forall|i: int| 0 <= i < xs.len() ==> lacks(#[trigger] xs[i], sep),
    ensures
        pieces(join(xs, seq![sep]), sep) == xs,
    decreases xs.len(),
{
    if xs.len() == 1 {
        assert(lacks(xs[0], sep));
        lemma_pieces_last(xs[0], sep, seq![]);
        assert(Seq::<char>::empty() + xs[0] =~= xs[0]);
        assert(pieces(join(xs, seq![sep]), sep) =~= xs);
    } else {
        let rest = xs.drop_first();
        assert forall|i: int| 0 <= i < rest.len() implies lacks(#[trigger] rest[i], sep) by {
            assert(rest[i] == xs[i + 1]);
        }
        lemma_pieces_join(rest, sep);
        lemma_join_front(xs, seq![sep]);
        assert(lacks(xs[0], sep));
        lemma_pieces_one(xs[0], sep, join(rest, seq![sep]), seq![]);
        assert(Seq::<char>::empty() + xs[0] =~= xs[0]);
        assert(pieces(join(xs, seq![sep]), sep) =~= xs);
    }
}

} // verus!
