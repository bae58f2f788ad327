//! Character-level model of hosts-file text: comment stripping, trimming,
//! and splitting on a separator character, together with the verified
//! executable line normalizer `remove_comments`.

use vstd::prelude::*;

verus! {

/// Characters treated as whitespace when a line is trimmed.
pub open spec fn is_space(c: char) -> bool {
    c == ' ' || c == '\t' || c == '\n' || c == '\r' || c == '\x0b' || c == '\x0c'
}

/// The prefix of `s` before its first `'#'` (all of `s` if it has none).
pub open spec fn strip_comment(s: Seq<char>) -> Seq<char>
    decreases s.len(),
{
    if s.len() == 0 {
        s
    } else if s[0] == '#' {
        Seq::empty()
    } else {
        seq![s[0]] + strip_comment(s.drop_first())
    }
}

/// `s` without its leading whitespace.
pub open spec fn trim_start(s: Seq<char>) -> Seq<char>
    decreases s.len(),
{
    if s.len() > 0 && is_space(s[0]) {
        trim_start(s.drop_first())
    } else {
        s
    }
}

/// `s` without its trailing whitespace.
pub open spec fn trim_end(s: Seq<char>) -> Seq<char>
    decreases s.len(),
{
    if s.len() > 0 && is_space(s.last()) {
        trim_end(s.drop_last())
    } else {
        s
    }
}

/// `s` without leading and trailing whitespace.
pub open spec fn trim(s: Seq<char>) -> Seq<char> {
    trim_end(trim_start(s))
}

/// One line, with its comment stripped and surrounding whitespace removed.
pub open spec fn normalize(s: Seq<char>) -> Seq<char> {
    trim(strip_comment(s))
}

/// The fields of `cur + s`, where `cur` is the part of the current field
/// already scanned: splitting is on single occurrences of `sep`, so empty
/// fields arise between consecutive separators and at the ends.
pub open spec fn split_rec(s: Seq<char>, sep: char, cur: Seq<char>) -> Seq<Seq<char>>
    decreases s.len(),
{
    if s.len() == 0 {
        seq![cur]
    } else if s[0] == sep {
        seq![cur] + split_rec(s.drop_first(), sep, Seq::empty())
    } else {
        split_rec(s.drop_first(), sep, cur.push(s[0]))
    }
}

/// The fields of `s` between single occurrences of `sep`; the empty string
/// has one empty field.
pub open spec fn split(s: Seq<char>, sep: char) -> Seq<Seq<char>> {
    split_rec(s, sep, Seq::empty())
}

/// Tokens joined with single spaces between them.
pub open spec fn join_space(ts: Seq<Seq<char>>) -> Seq<char>
    decreases ts.len(),
{
    if ts.len() == 0 {
        Seq::empty()
    } else if ts.len() == 1 {
        ts[0]
    } else {
        ts[0] + seq![' '] + join_space(ts.drop_first())
    }
}

/// A word that tokenization leaves whole: non-empty, with no whitespace
/// and no `'#'` in it.
pub open spec fn is_token(t: Seq<char>) -> bool {
    t.len() > 0 && forall|i: int| 0 <= i < t.len() ==> !is_space(t[i]) && t[i] != '#'
}

/// The views of a sequence of strings.
pub open spec fn views_of(v: Seq<String>) -> Seq<Seq<char>> {
    v.map_values(|s: String| s@)
}

/// Whether `c` counts as whitespace for trimming.
pub fn is_space_char(c: char) -> (r: bool)
    ensures
        r == is_space(c),
{
    c == ' ' || c == '\t' || c == '\n' || c == '\r' || c == '\x0b' || c == '\x0c'
}

/// Character-for-character string equality.
pub fn str_eq(a: &str, b: &str) -> (r: bool)
    ensures
        r == (a@ == b@),
{
    let na = a.unicode_len();
    let nb = b.unicode_len();
    if na != nb {
        return false;
    }
    let mut i: usize = 0;
    while i < na
        invariant
            i <= na,
            na == a@.len(),
            na == b@.len(),
            forall|j: int| 0 <= j < i ==> a@[j] == b@[j],
        decreases na - i,
    {
        if a.get_char(i) != b.get_char(i) {
            return false;
        }
        i += 1;
    }
    proof {
        assert(a@ =~= b@);
    }
    true
}

proof fn lemma_strip_comment_prefix(s: Seq<char>, e: int)
    requires
        0 <= e <= s.len(),
        forall|j: int| 0 <= j < e ==> s[j] != '#',
        e == s.len() || s[e] == '#',
    ensures
        strip_comment(s) == s.subrange(0, e),
    decreases s.len(),
{
    if s.len() == 0 {
        assert(strip_comment(s) =~= s.subrange(0, 0));
    } else if s[0] == '#' {
        assert(e == 0) by {
            if e > 0 {
                assert(s[0] != '#');
            }
        }
        assert(strip_comment(s) =~= s.subrange(0, 0));
    } else {
        assert(e >= 1) by {
            if e == 0 {
                assert(s[e] == '#');
            }
        }
        let d = s.drop_first();
        assert forall|j: int| 0 <= j < e - 1 implies d[j] != '#' by {
            assert(d[j] == s[j + 1]);
        }
        lemma_strip_comment_prefix(d, e - 1);
        assert(strip_comment(s) =~= s.subrange(0, e));
    }
}

proof fn lemma_trim_start_suffix(s: Seq<char>, a: int)
    requires
        0 <= a <= s.len(),
        forall|j: int| 0 <= j < a ==> is_space(s[j]),
        a == s.len() || !is_space(s[a]),
    ensures
        trim_start(s) == s.subrange(a, s.len() as int),
    decreases s.len(),
{
    if a == 0 {
        if s.len() > 0 && is_space(s[0]) {
            assert(false);
        }
        assert(trim_start(s) =~= s.subrange(0, s.len() as int));
    } else {
        assert(is_space(s[0]));
        let d = s.drop_first();
        assert forall|j: int| 0 <= j < a - 1 implies is_space(d[j]) by {
            assert(d[j] == s[j + 1]);
        }
        lemma_trim_start_suffix(d, a - 1);
        assert(d.subrange(a - 1, d.len() as int) =~= s.subrange(a, s.len() as int));
    }
}

proof fn lemma_trim_end_prefix(s: Seq<char>, b: int)
    requires
        0 <= b <= s.len(),
        forall|j: int| b <= j < s.len() ==> is_space(s[j]),
        b == 0 || !is_space(s[b - 1]),
    ensures
        trim_end(s) == s.subrange(0, b),
    decreases s.len(),
{
    if b == s.len() {
        if s.len() > 0 && is_space(s.last()) {
            assert(!is_space(s[b - 1]));
        }
        assert(trim_end(s) =~= s.subrange(0, b));
    } else {
        assert(is_space(s.last()));
        let d = s.drop_last();
        lemma_trim_end_prefix(d, b);
        assert(d.subrange(0, b) =~= s.subrange(0, b));
    }
}

proof fn lemma_split_rec_len(s: Seq<char>, sep: char, cur: Seq<char>)
    ensures
        split_rec(s, sep, cur).len() >= 1,
    decreases s.len(),
{
    if s.len() == 0 {
    } else if s[0] == sep {
    } else {
        lemma_split_rec_len(s.drop_first(), sep, cur.push(s[0]));
    }
}

proof fn lemma_split_rec_first_len(s: Seq<char>, sep: char, cur: Seq<char>)
    ensures
        split_rec(s, sep, cur)[0].len() >= cur.len(),
    decreases s.len(),
{
    if s.len() == 0 {
    } else if s[0] == sep {
    } else {
        lemma_split_rec_first_len(s.drop_first(), sep, cur.push(s[0]));
    }
}

/// The first field of a string that does not start with the separator is
/// non-empty.
pub(crate) proof fn lemma_split_first_nonempty(t: Seq<char>, sep: char)
    requires
        t.len() > 0,
        t[0] != sep,
    ensures
        split(t, sep).len() >= 1,
        split(t, sep)[0].len() >= 1,
{
    lemma_split_rec_len(t, sep, Seq::empty());
    lemma_split_rec_first_len(t.drop_first(), sep, Seq::empty().push(t[0]));
}

proof fn lemma_split_rec_append(x: Seq<char>, y: Seq<char>, sep: char, cur: Seq<char>)
    ensures
        split_rec(x + y, sep, cur) == split_rec(x, sep, cur).drop_last() + split_rec(
            y,
            sep,
            split_rec(x, sep, cur).last(),
        ),
    decreases x.len(),
{
    if x.len() == 0 {
        assert(x + y =~= y);
        assert(seq![cur].drop_last() + split_rec(y, sep, cur) =~= split_rec(y, sep, cur));
    } else {
        assert((x + y)[0] == x[0]);
        assert((x + y).drop_first() =~= x.drop_first() + y);
        if x[0] == sep {
            lemma_split_rec_append(x.drop_first(), y, sep, Seq::empty());
            lemma_split_rec_len(x.drop_first(), sep, Seq::empty());
            let s = split_rec(x.drop_first(), sep, Seq::empty());
            assert((seq![cur] + s).drop_last() =~= seq![cur] + s.drop_last());
            assert((seq![cur] + s).last() == s.last());
            assert(seq![cur] + (s.drop_last() + split_rec(y, sep, s.last())) =~= (seq![cur]
                + s.drop_last()) + split_rec(y, sep, s.last()));
        } else {
            lemma_split_rec_append(x.drop_first(), y, sep, cur.push(x[0]));
        }
    }
}

proof fn lemma_split_rec_no_sep(s: Seq<char>, sep: char, cur: Seq<char>)
    requires
        forall|i: int| 0 <= i < s.len() ==> s[i] != sep,
    ensures
        split_rec(s, sep, cur) == seq![cur + s],
    decreases s.len(),
{
    if s.len() == 0 {
        assert(cur + s =~= cur);
    } else {
        assert(s[0] != sep);
        assert forall|i: int| 0 <= i < s.drop_first().len() implies s.drop_first()[i] != sep by {
            assert(s.drop_first()[i] == s[i + 1]);
        }
        lemma_split_rec_no_sep(s.drop_first(), sep, cur.push(s[0]));
        assert(cur.push(s[0]) + s.drop_first() =~= cur + s);
    }
}

/// A string without the separator is one single field.
pub(crate) proof fn lemma_split_no_sep(s: Seq<char>, sep: char)
    requires
        forall|i: int| 0 <= i < s.len() ==> s[i] != sep,
    ensures
        split(s, sep) == seq![s],
{
    lemma_split_rec_no_sep(s, sep, Seq::empty());
    assert(Seq::empty() + s =~= s);
}

/// Splitting distributes over concatenation at a separator.
pub(crate) proof fn lemma_split_concat_sep(t1: Seq<char>, t2: Seq<char>, sep: char)
    ensures
        split(t1 + seq![sep] + t2, sep) == split(t1, sep) + split(t2, sep),
{
    let mid = seq![sep] + t2;
    assert(t1 + seq![sep] + t2 =~= t1 + mid);
    lemma_split_rec_append(t1, mid, sep, Seq::empty());
    let s1 = split(t1, sep);
    lemma_split_rec_len(t1, sep, Seq::empty());
    assert(mid[0] == sep);
    assert(mid.drop_first() =~= t2);
    assert(split_rec(mid, sep, s1.last()) == seq![s1.last()] + split(t2, sep));
    assert(s1.drop_last() + (seq![s1.last()] + split(t2, sep)) =~= (s1.drop_last() + seq![
        s1.last(),
    ]) + split(t2, sep));
    assert(s1.drop_last() + seq![s1.last()] =~= s1);
}

/// Appending separator-free text extends the last field.
pub(crate) proof fn lemma_split_append_tail(a: Seq<char>, t: Seq<char>, sep: char)
    requires
        forall|i: int| 0 <= i < t.len() ==> t[i] != sep,
    ensures
        split(a + t, sep) == split(a, sep).drop_last() + seq![split(a, sep).last() + t],
{
    lemma_split_rec_append(a, t, sep, Seq::empty());
    lemma_split_rec_no_sep(t, sep, split(a, sep).last());
}

proof fn lemma_trim_start_first(s: Seq<char>)
    ensures
        trim_start(s).len() > 0 ==> !is_space(trim_start(s)[0]),
        trim_start(s).len() <= s.len(),
    decreases s.len(),
{
    if s.len() > 0 && is_space(s[0]) {
        lemma_trim_start_first(s.drop_first());
    }
}

proof fn lemma_trim_end_props(s: Seq<char>)
    ensures
        trim_end(s).len() <= s.len(),
        trim_end(s) == s.take(trim_end(s).len() as int),
        trim_end(s).len() > 0 ==> !is_space(trim_end(s).last()),
    decreases s.len(),
{
    if s.len() > 0 && is_space(s.last()) {
        lemma_trim_end_props(s.drop_last());
        assert(s.drop_last().take(trim_end(s).len() as int) =~= s.take(
            trim_end(s).len() as int,
        ));
    } else {
        assert(s.take(s.len() as int) =~= s);
    }
}

proof fn lemma_strip_comment_chars(s: Seq<char>)
    ensures
        strip_comment(s).len() <= s.len(),
        forall|i: int| 0 <= i < strip_comment(s).len() ==> strip_comment(s)[i] != '#',
        forall|i: int|
            0 <= i < strip_comment(s).len() ==> #[trigger] strip_comment(s)[i] == s[i],
    decreases s.len(),
{
    if s.len() == 0 {
    } else if s[0] == '#' {
    } else {
        lemma_strip_comment_chars(s.drop_first());
        let r = strip_comment(s);
        assert forall|i: int| 0 <= i < r.len() implies r[i] != '#' && #[trigger] r[i]
            == s[i] by {
            if i > 0 {
                assert(r[i] == strip_comment(s.drop_first())[i - 1]);
                assert(s.drop_first()[i - 1] == s[i]);
            }
        }
    }
}

pub(crate) proof fn lemma_strip_comment_id(s: Seq<char>)
    requires
        forall|i: int| 0 <= i < s.len() ==> s[i] != '#',
    ensures
        strip_comment(s) == s,
    decreases s.len(),
{
    if s.len() > 0 {
        assert(s[0] != '#');
        lemma_strip_comment_id(s.drop_first());
        assert(seq![s[0]] + s.drop_first() =~= s);
    }
}

/// What holds of every normalized line: it has no `'#'`, its characters come
/// unchanged from the input, and it neither starts nor ends with whitespace.
pub(crate) proof fn lemma_normalize_props(s: Seq<char>)
    ensures
        forall|i: int| 0 <= i < normalize(s).len() ==> normalize(s)[i] != '#',
        normalize(s).len() > 0 ==> !is_space(normalize(s)[0]),
        normalize(s).len() > 0 ==> !is_space(normalize(s).last()),
{
    let c = strip_comment(s);
    let t = trim_start(c);
    let u = trim_end(t);
    lemma_strip_comment_chars(s);
    lemma_trim_start_first(c);
    lemma_trim_end_props(t);
    assert(trim_start_is_suffix(c, t)) by {
        lemma_trim_start_suffix_shape(c);
    }
    assert forall|i: int| 0 <= i < u.len() implies u[i] != '#' by {
        assert(u[i] == t[i]);
        let k = c.len() - t.len();
        assert(t[i] == c[k + i]);
    }
    if u.len() > 0 {
        assert(u[0] == t[0]);
    }
}

/// `trim_start` returns a suffix of its argument.
spec fn trim_start_is_suffix(s: Seq<char>, t: Seq<char>) -> bool {
    t.len() <= s.len() && t == s.skip(s.len() - t.len())
}

proof fn lemma_trim_start_suffix_shape(s: Seq<char>)
    ensures
        trim_start_is_suffix(s, trim_start(s)),
    decreases s.len(),
{
    if s.len() > 0 && is_space(s[0]) {
        lemma_trim_start_suffix_shape(s.drop_first());
        let t = trim_start(s);
        assert(s.drop_first().skip(s.drop_first().len() - t.len()) =~= s.skip(s.len() - t.len()));
    } else {
        assert(s.skip(0) =~= s);
    }
}

/// Normalizing is idempotent: a second pass changes nothing.
pub proof fn lemma_normalize_idempotent(s: Seq<char>)
    ensures
        normalize(normalize(s)) == normalize(s),
{
    let n = normalize(s);
    lemma_normalize_props(s);
    lemma_strip_comment_id(n);
    if n.len() > 0 {
        assert(trim_start(n) == n);
        assert(trim_end(n) == n);
    }
}

/// Index of the first `'#'` in `line`, or its length if it has none.
fn scan_to_hash(line: &str) -> (e: usize)
    ensures
        e <= line@.len(),
        forall|j: int| 0 <= j < e ==> line@[j] != '#',
        e == line@.len() || line@[e as int] == '#',
{
    let n = line.unicode_len();
    let mut i: usize = 0;
    while i < n
        invariant
            i <= n,
            n == line@.len(),
            forall|j: int| 0 <= j < i ==> line@[j] != '#',
        decreases n - i,
    {
        if line.get_char(i) == '#' {
            return i;
        }
        i += 1;
    }
    n
}

/// Strips the first `'#'` and everything after it from `line`, then trims
/// surrounding whitespace from what remains.
pub fn remove_comments(line: &str) -> (r: String)
    ensures
        r@ == normalize(line@),
{
    let e = scan_to_hash(line);
    let mut start: usize = 0;
    while start < e && is_space_char(line.get_char(start))
        invariant
            start <= e,
            e <= line@.len(),
            forall|j: int| 0 <= j < start ==> is_space(line@[j]),
        decreases e - start,
    {
        start += 1;
    }
    let mut end: usize = e;
    while end > start && is_space_char(line.get_char(end - 1))
        invariant
            start <= end <= e,
            e <= line@.len(),
            forall|j: int| end <= j < e ==> is_space(line@[j]),
        decreases end,
    {
        end -= 1;
    }
    let sub = line.substring_char(start, end);
    proof {
        let s = line@;
        let stripped = s.subrange(0, e as int);
        lemma_strip_comment_prefix(s, e as int);
        assert forall|j: int| 0 <= j < start implies is_space(stripped[j]) by {
            assert(stripped[j] == s[j]);
        }
        lemma_trim_start_suffix(stripped, start as int);
        let t1 = stripped.subrange(start as int, e as int);
        assert(trim_start(stripped) == t1);
        let b = end - start;
        assert forall|j: int| b <= j < t1.len() implies is_space(t1[j]) by {
            assert(t1[j] == s[start + j]);
        }
        if b > 0 {
            assert(t1[b - 1] == s[end - 1]);
        }
        lemma_trim_end_prefix(t1, b as int);
        assert(t1.subrange(0, b as int) =~= s.subrange(start as int, end as int));
    }
    String::from_str(sub)
}

/// Splits `s` at every occurrence of `sep`; the result has one field more
/// than `s` has separators.
pub fn split_str(s: &str, sep: char) -> (r: Vec<String>)
    ensures
        views_of(r@) == split(s@, sep),
        r@.len() >= 1,
{
    let n = s.unicode_len();
    let mut r: Vec<String> = Vec::new();
    let mut start: usize = 0;
    let mut i: usize = 0;
    proof {
        assert(s@.subrange(0, n as int) =~= s@);
        assert(s@.subrange(0, 0) =~= Seq::<char>::empty());
        assert(views_of(r@) + split_rec(s@.subrange(0, n as int), sep, s@.subrange(0, 0)) =~= split(
            s@,
            sep,
        ));
    }
    while i < n
        invariant
            start <= i <= n,
            n == s@.len(),
            split(s@, sep) == views_of(r@) + split_rec(
                s@.subrange(i as int, n as int),
                sep,
                s@.subrange(start as int, i as int),
            ),
        decreases n - i,
    {
        let ghost r0 = r@;
        let ghost rest = s@.subrange(i as int, n as int);
        let ghost cur = s@.subrange(start as int, i as int);
        proof {
            assert(rest[0] == s@[i as int]);
            assert(rest.drop_first() =~= s@.subrange(i + 1, n as int));
        }
        if s.get_char(i) == sep {
            let tok = s.substring_char(start, i);
            r.push(String::from_str(tok));
            start = i + 1;
            proof {
                assert(views_of(r@) =~= views_of(r0).push(cur));
                assert(s@.subrange(start as int, i + 1) =~= Seq::<char>::empty());
                assert(views_of(r0) + (seq![cur] + split_rec(
                    s@.subrange(i + 1, n as int),
                    sep,
                    Seq::empty(),
                )) =~= views_of(r@) + split_rec(
                    s@.subrange(i + 1, n as int),
                    sep,
                    Seq::empty(),
                ));
            }
        } else {
            proof {
                assert(cur.push(s@[i as int]) =~= s@.subrange(start as int, i + 1));
            }
        }
        i += 1;
    }
    let ghost r0 = r@;
    let ghost cur = s@.subrange(start as int, n as int);
    let tok = s.substring_char(start, n);
    r.push(String::from_str(tok));
    proof {
        assert(s@.subrange(n as int, n as int).len() == 0);
        assert(views_of(r@) =~= views_of(r0).push(cur));
        assert(views_of(r@) =~= views_of(r0) + seq![cur]);
    }
    r
}

} // verus!
