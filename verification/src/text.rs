//! Character-level text operations on `Seq<char>`: whitespace, trimming, and
//! the three ways the splitter cuts text (at blank lines, at line ends, after
//! sentence terminators).

use vstd::prelude::*;

verus! {

/// The Unicode `White_Space` property, which `char::is_whitespace` tests.
pub open spec fn is_ws(c: char) -> bool {
    ||| ('\u{9}' <= c && c <= '\u{d}')
    ||| c == ' '
    ||| c == '\u{85}'
    ||| c == '\u{a0}'
    ||| c == '\u{1680}'
    ||| ('\u{2000}' <= c && c <= '\u{200a}')
    ||| c == '\u{2028}'
    ||| c == '\u{2029}'
    ||| c == '\u{202f}'
    ||| c == '\u{205f}'
    ||| c == '\u{3000}'
}

pub fn char_is_ws(c: char) -> (b: bool)
    ensures
        b == is_ws(c),
{
    ('\u{9}' <= c && c <= '\u{d}') || c == ' ' || c == '\u{85}' || c == '\u{a0}' || c == '\u{1680}'
        || ('\u{2000}' <= c && c <= '\u{200a}') || c == '\u{2028}' || c == '\u{2029}' || c
        == '\u{202f}' || c == '\u{205f}' || c == '\u{3000}'
}

/// `s` with its leading whitespace removed.
pub open spec fn trim_start(s: Seq<char>) -> Seq<char>
    decreases s.len(),
{
    if s.len() > 0 && is_ws(s[0]) {
        trim_start(s.drop_first())
    } else {
        s
    }
}

/// `s` with its trailing whitespace removed.
pub open spec fn trim_end(s: Seq<char>) -> Seq<char>
    decreases s.len(),
{
    if s.len() > 0 && is_ws(s.last()) {
        trim_end(s.drop_last())
    } else {
        s
    }
}

/// `str::trim`: leading and trailing whitespace removed.
pub open spec fn trim(s: Seq<char>) -> Seq<char> {
    trim_end(trim_start(s))
}

pub open spec fn non_ws() -> spec_fn(char) -> bool {
    |c: char| !is_ws(c)
}

/// The characters of `s` that are not whitespace, in order.
pub open spec fn strip_ws(s: Seq<char>) -> Seq<char> {
    s.filter(non_ws())
}

/// The views of a sequence of character vectors.
pub open spec fn views(v: Seq<Vec<char>>) -> Seq<Seq<char>> {
    v.map_values(|x: Vec<char>| x@)
}

pub proof fn lemma_views_push(v: Seq<Vec<char>>, x: Vec<char>)
    ensures
        views(v.push(x)) == views(v).push(x@),
{
    assert(views(v.push(x)) =~= views(v).push(x@));
}

/// Copies `s[a..b]` into a new vector.
pub fn copy_range(s: &Vec<char>, a: usize, b: usize) -> (r: Vec<char>)
    requires
        a <= b <= s@.len(),
    ensures
        r@ == s@.subrange(a as int, b as int),
{
    let mut r: Vec<char> = Vec::new();
    let mut i = a;
    while i < b
        invariant
            a <= i <= b <= s@.len(),
            r@ == s@.subrange(a as int, i as int),
        decreases b - i,
    {
        r.push(s[i]);
        assert(r@ =~= s@.subrange(a as int, i + 1));
        i += 1;
    }
    r
}

/// Appends the characters of `t` to `r`.
pub fn push_all(r: &mut Vec<char>, t: &Vec<char>)
    ensures
        final(r)@ == old(r)@ + t@,
{
    let mut i: usize = 0;
    while i < t.len()
        invariant
            i <= t@.len(),
            r@ == old(r)@ + t@.take(i as int),
        decreases t@.len() - i,
    {
        r.push(t[i]);
        assert(r@ =~= old(r)@ + t@.take(i + 1));
        i += 1;
    }
    assert(t@.take(t@.len() as int) =~= t@);
}

/// Calls `String::push`, which, as its documentation says, appends `c` to
/// the end of `s`.
#[verifier::external_body]
fn string_push(s: &mut String, c: char)
    ensures
        final(s)@ == old(s)@.push(c),
{
    s.push(c);
}

/// A `String` holding the characters of `v`.
pub fn string_of(v: &Vec<char>) -> (s: String)
    ensures
        s@ == v@,
{
    let mut s = String::new();
    let mut i: usize = 0;
    while i < v.len()
        invariant
            i <= v@.len(),
            s@ == v@.take(i as int),
        decreases v@.len() - i,
    {
        string_push(&mut s, v[i]);
        assert(s@ =~= v@.take(i + 1));
        i += 1;
    }
    assert(v@.take(v@.len() as int) =~= v@);
    s
}

/// The characters of `s`.
pub fn chars_of(s: &str) -> (v: Vec<char>)
    ensures
        v@ == s@,
{
    let mut v: Vec<char> = Vec::new();
    for c in it: s.chars()
        invariant
            v@ == it.seq().take(it.index()),
    {
        v.push(c);
    }
    v
}

/// Copies `s` with its leading and trailing whitespace removed.
pub fn trim_chars(s: &Vec<char>) -> (r: Vec<char>)
    ensures
        r@ == trim(s@),
{
    let n: usize = s.len();
    let mut a: usize = 0;
    assert(s@.skip(0) =~= s@);
    while a < n && char_is_ws(s[a])
        invariant
            a <= n == s@.len(),
            trim_start(s@) == trim_start(s@.skip(a as int)),
        decreases n - a,
    {
        assert(s@.skip(a as int).drop_first() =~= s@.skip(a + 1));
        a += 1;
    }
    assert(trim_start(s@.skip(a as int)) == s@.skip(a as int));
    assert(s@.skip(a as int) =~= s@.subrange(a as int, n as int));
    let mut b: usize = n;
    while b > a && char_is_ws(s[b - 1])
        invariant
            a <= b <= n == s@.len(),
            trim(s@) == trim_end(s@.subrange(a as int, b as int)),
        decreases b,
    {
        assert(s@.subrange(a as int, b as int).drop_last() =~= s@.subrange(a as int, b - 1));
        b -= 1;
    }
    copy_range(s, a, b)
}

/// A blank-line separator (`"\n\n"`) starts at index `j` of `s`.
pub open spec fn blank_sep_at(s: Seq<char>, j: int) -> bool {
    0 <= j && j + 1 < s.len() && s[j] == '\n' && s[j + 1] == '\n'
}

/// The first index at or after `i` where a blank-line separator starts, or
/// `s.len()` where there is none.
pub open spec fn first_blank_sep(s: Seq<char>, i: int) -> int
    decreases s.len() - i,
{
    if i < 0 || i + 1 >= s.len() {
        s.len() as int
    } else if blank_sep_at(s, i) {
        i
    } else {
        first_blank_sep(s, i + 1)
    }
}

/// `str::split("\n\n")`: the pieces of `s` between the leftmost
/// non-overlapping occurrences of `"\n\n"`.
pub open spec fn paragraphs(s: Seq<char>) -> Seq<Seq<char>>
    decreases s.len(),
{
    let j = first_blank_sep(s, 0);
    if 0 <= j && j + 2 <= s.len() {
        seq![s.take(j)] + paragraphs(s.skip(j + 2))
    } else {
        seq![s]
    }
}

/// The first index at or after `i` of a character of `s` that satisfies
/// `p`, or `s.len()` where there is none.
pub open spec fn first_where(s: Seq<char>, p: spec_fn(char) -> bool, i: int) -> int
    decreases s.len() - i,
{
    if i < 0 || i >= s.len() {
        s.len() as int
    } else if p(s[i]) {
        i
    } else {
        first_where(s, p, i + 1)
    }
}

/// `str::split_inclusive(p)`: `s` cut after each character that satisfies
/// `p`, each piece keeping its terminator; a final piece without one is kept
/// when it is not empty.
pub open spec fn split_inclusive(s: Seq<char>, p: spec_fn(char) -> bool) -> Seq<Seq<char>>
    decreases s.len(),
{
    if s.len() == 0 {
        seq![]
    } else {
        let j = first_where(s, p, 0);
        if 0 <= j < s.len() {
            seq![s.take(j + 1)] + split_inclusive(s.skip(j + 1), p)
        } else {
            seq![s]
        }
    }
}

pub open spec fn line_feed() -> spec_fn(char) -> bool {
    |c: char| c == '\n'
}

pub open spec fn sentence_end() -> spec_fn(char) -> bool {
    |c: char| c == '.' || c == '!' || c == '?'
}

pub open spec fn cut_after(by_line: bool) -> spec_fn(char) -> bool {
    if by_line {
        line_feed()
    } else {
        sentence_end()
    }
}

fn is_cut_char(c: char, by_line: bool) -> (b: bool)
    ensures
        b == (cut_after(by_line))(c),
{
    if by_line {
        c == '\n'
    } else {
        c == '.' || c == '!' || c == '?'
    }
}

/// A line piece without its terminator: a final `'\n'` is removed, and then
/// a `'\r'` before it.
pub open spec fn strip_line_end(l: Seq<char>) -> Seq<char> {
    if l.len() > 0 && l.last() == '\n' {
        let m = l.drop_last();
        if m.len() > 0 && m.last() == '\r' {
            m.drop_last()
        } else {
            m
        }
    } else {
        l
    }
}

/// `str::lines`.
pub open spec fn lines(s: Seq<char>) -> Seq<Seq<char>> {
    split_inclusive(s, line_feed()).map_values(|l: Seq<char>| strip_line_end(l))
}

/// Cuts `s` at its blank-line separators.
pub fn split_paragraphs(s: &Vec<char>) -> (r: Vec<Vec<char>>)
    ensures
        views(r@) == paragraphs(s@),
{
    let n: usize = s.len();
    let mut out: Vec<Vec<char>> = Vec::new();
    let mut start: usize = 0;
    let mut i: usize = 0;
    assert(s@.skip(0) =~= s@);
    while i < n && i + 1 < n
        invariant
            start <= i <= n == s@.len(),
            views(out@) + paragraphs(s@.skip(start as int)) == paragraphs(s@),
            first_blank_sep(s@.skip(start as int), 0) == first_blank_sep(
                s@.skip(start as int),
                i - start,
            ),
        decreases n - i,
    {
        let ghost t = s@.skip(start as int);
        if s[i] == '\n' && s[i + 1] == '\n' {
            assert(blank_sep_at(t, i - start));
            assert(t.take(i - start) =~= s@.subrange(start as int, i as int));
            assert(t.skip(i - start + 2) =~= s@.skip(i + 2));
            let piece = copy_range(s, start, i);
            proof {
                lemma_views_push(out@, piece);
            }
            out.push(piece);
            start = i + 2;
            i = i + 2;
            assert(views(out@) + paragraphs(s@.skip(start as int)) =~= paragraphs(s@));
        } else {
            i += 1;
        }
    }
    let ghost t = s@.skip(start as int);
    assert(first_blank_sep(t, i - start) == t.len());
    assert(t =~= s@.subrange(start as int, n as int));
    let last = copy_range(s, start, n);
    proof {
        lemma_views_push(out@, last);
    }
    out.push(last);
    assert(views(out@) =~= paragraphs(s@));
    out
}

/// Cuts `s` after each line feed (`by_line`) or after each sentence
/// terminator (`.`, `!`, `?`), as `str::split_inclusive` does.
pub fn split_inclusive_chars(s: &Vec<char>, by_line: bool) -> (r: Vec<Vec<char>>)
    ensures
        views(r@) == split_inclusive(s@, cut_after(by_line)),
{
    let ghost p = cut_after(by_line);
    let n: usize = s.len();
    let mut out: Vec<Vec<char>> = Vec::new();
    let mut start: usize = 0;
    let mut i: usize = 0;
    assert(s@.skip(0) =~= s@);
    while i < n
        invariant
            p == cut_after(by_line),
            start <= i <= n == s@.len(),
            views(out@) + split_inclusive(s@.skip(start as int), p) == split_inclusive(s@, p),
            first_where(s@.skip(start as int), p, 0) == first_where(
                s@.skip(start as int),
                p,
                i - start,
            ),
        decreases n - i,
    {
        let ghost t = s@.skip(start as int);
        if is_cut_char(s[i], by_line) {
            assert(t.take(i - start + 1) =~= s@.subrange(start as int, i + 1));
            assert(t.skip(i - start + 1) =~= s@.skip(i + 1));
            let piece = copy_range(s, start, i + 1);
            proof {
                lemma_views_push(out@, piece);
            }
            out.push(piece);
            start = i + 1;
            assert(views(out@) + split_inclusive(s@.skip(start as int), p) =~= split_inclusive(
                s@,
                p,
            ));
        }
        i += 1;
    }
    let ghost t = s@.skip(start as int);
    if start < n {
        assert(t =~= s@.subrange(start as int, n as int));
        let last = copy_range(s, start, n);
        proof {
            lemma_views_push(out@, last);
        }
        out.push(last);
        assert(views(out@) =~= split_inclusive(s@, p));
    } else {
        assert(views(out@) =~= split_inclusive(s@, p));
    }
    out
}

/// `l` without its line terminator.
fn strip_line_end_chars(l: Vec<char>) -> (r: Vec<char>)
    ensures
        r@ == strip_line_end(l@),
{
    let mut r = l;
    if r.len() > 0 && r[r.len() - 1] == '\n' {
        r.pop();
        if r.len() > 0 && r[r.len() - 1] == '\r' {
            r.pop();
        }
    }
    r
}

/// Cuts `s` into its lines, as `str::lines` does.
pub fn lines_of(s: &Vec<char>) -> (r: Vec<Vec<char>>)
    ensures
        views(r@) == lines(s@),
{
    let pieces = split_inclusive_chars(s, true);
    let ghost pv = views(pieces@);
    let mut out: Vec<Vec<char>> = Vec::new();
    let mut i: usize = 0;
    while i < pieces.len()
        invariant
            i <= pieces@.len(),
            pv == views(pieces@),
            pv == split_inclusive(s@, line_feed()),
            views(out@) == pv.take(i as int).map_values(|l: Seq<char>| strip_line_end(l)),
        decreases pieces@.len() - i,
    {
        let line = strip_line_end_chars(pieces[i].clone());
        proof {
            lemma_views_push(out@, line);
        }
        out.push(line);
        assert(pv.take(i + 1).map_values(|l: Seq<char>| strip_line_end(l)) =~= pv.take(
            i as int,
        ).map_values(|l: Seq<char>| strip_line_end(l)).push(strip_line_end(pv[i as int])));
        i += 1;
    }
    assert(pv.take(pieces@.len() as int) =~= pv);
    out
}

pub proof fn lemma_strip_add(a: Seq<char>, b: Seq<char>)
    ensures
        strip_ws(a + b) == strip_ws(a) + strip_ws(b),
{
    Seq::filter_distributes_over_add(a, b, non_ws());
}

/// A text made of whitespace only has no other characters.
pub proof fn lemma_strip_all_ws(s: Seq<char>)
    requires
        forall|i: int| 0 <= i < s.len() ==> is_ws(#[trigger] s[i]),
    ensures
        strip_ws(s) == Seq::<char>::empty(),
    decreases s.len(),
{
    if s.len() == 0 {
        assert(s.filter(non_ws()) =~= Seq::<char>::empty()) by {
            reveal(Seq::filter);
        }
    } else {
        let t = s.drop_last();
        lemma_strip_all_ws(t);
        assert(s =~= t.push(s.last()));
        t.lemma_filter_push(s.last(), non_ws());
    }
}

pub proof fn lemma_strip_separators()
    ensures
        strip_ws(seq!['\n']) == Seq::<char>::empty(),
        strip_ws(seq!['\n', '\n']) == Seq::<char>::empty(),
        strip_ws(seq!['\r', '\n']) == Seq::<char>::empty(),
        strip_ws(Seq::<char>::empty()) == Seq::<char>::empty(),
{
    lemma_strip_all_ws(seq!['\n']);
    lemma_strip_all_ws(seq!['\n', '\n']);
    lemma_strip_all_ws(seq!['\r', '\n']);
    lemma_strip_all_ws(Seq::<char>::empty());
}

/// Trimming removes whitespace only.
pub proof fn lemma_strip_trim(s: Seq<char>)
    ensures
        strip_ws(trim_start(s)) == strip_ws(s),
        strip_ws(trim_end(s)) == strip_ws(s),
        strip_ws(trim(s)) == strip_ws(s),
{
    lemma_strip_trim_start_of(s);
    lemma_strip_trim_end_of(s);
    lemma_strip_trim_end_of(trim_start(s));
}

proof fn lemma_strip_trim_start_of(s: Seq<char>)
    ensures
        strip_ws(trim_start(s)) == strip_ws(s),
    decreases s.len(),
{
    if s.len() > 0 && is_ws(s[0]) {
        lemma_strip_trim_start_of(s.drop_first());
        assert(s =~= seq![s[0]] + s.drop_first());
        lemma_strip_add(seq![s[0]], s.drop_first());
        lemma_strip_all_ws(seq![s[0]]);
        assert(Seq::<char>::empty() + strip_ws(s.drop_first()) =~= strip_ws(s.drop_first()));
    }
}

proof fn lemma_strip_trim_end_of(s: Seq<char>)
    ensures
        strip_ws(trim_end(s)) == strip_ws(s),
    decreases s.len(),
{
    if s.len() > 0 && is_ws(s.last()) {
        lemma_strip_trim_end_of(s.drop_last());
        assert(s =~= s.drop_last() + seq![s.last()]);
        lemma_strip_add(s.drop_last(), seq![s.last()]);
        lemma_strip_all_ws(seq![s.last()]);
    }
}

/// A text that trims to nothing is whitespace only.
pub proof fn lemma_strip_blank(s: Seq<char>)
    requires
        trim(s).len() == 0,
    ensures
        strip_ws(s) == Seq::<char>::empty(),
{
    lemma_strip_trim(s);
    assert(trim(s) =~= Seq::<char>::empty());
    lemma_strip_separators();
}

pub proof fn lemma_flatten_cons(a: Seq<char>, r: Seq<Seq<char>>)
    ensures
        (seq![a] + r).flatten() == a + r.flatten(),
{
    assert((seq![a] + r).drop_first() =~= r);
    assert((seq![a] + r)[0] == a);
}

pub proof fn lemma_first_blank_sep(s: Seq<char>, i: int)
    requires
        0 <= i,
    ensures
        first_blank_sep(s, i) == s.len() || (i <= first_blank_sep(s, i) && blank_sep_at(
            s,
            first_blank_sep(s, i),
        )),
    decreases s.len() - i,
{
    if i + 1 < s.len() && !blank_sep_at(s, i) {
        lemma_first_blank_sep(s, i + 1);
    }
}

/// Cutting at blank lines loses nothing but the separators.
pub proof fn lemma_strip_paragraphs(s: Seq<char>)
    ensures
        strip_ws(paragraphs(s).flatten()) == strip_ws(s),
    decreases s.len(),
{
    let j = first_blank_sep(s, 0);
    lemma_first_blank_sep(s, 0);
    if 0 <= j && j + 2 <= s.len() {
        let rest = s.skip(j + 2);
        lemma_strip_paragraphs(rest);
        lemma_flatten_cons(s.take(j), paragraphs(rest));
        lemma_strip_add(s.take(j), paragraphs(rest).flatten());
        assert(s =~= s.take(j) + seq!['\n', '\n'] + rest);
        lemma_strip_add(s.take(j) + seq!['\n', '\n'], rest);
        lemma_strip_add(s.take(j), seq!['\n', '\n']);
        lemma_strip_separators();
        assert(strip_ws(s.take(j)) + Seq::<char>::empty() =~= strip_ws(s.take(j)));
    } else {
        assert(paragraphs(s) == seq![s]);
        lemma_flatten_cons(s, Seq::<Seq<char>>::empty());
        assert(s + Seq::<Seq<char>>::empty().flatten() =~= s);
    }
}

proof fn lemma_first_where(s: Seq<char>, p: spec_fn(char) -> bool, i: int)
    requires
        0 <= i,
    ensures
        first_where(s, p, i) == s.len() || (i <= first_where(s, p, i) < s.len() && p(
            s[first_where(s, p, i)],
        )),
    decreases s.len() - i,
{
    if i < s.len() && !p(s[i]) {
        lemma_first_where(s, p, i + 1);
    }
}

/// The pieces that `split_inclusive` cuts, put back together, are the text.
pub proof fn lemma_split_inclusive_flatten(s: Seq<char>, p: spec_fn(char) -> bool)
    ensures
        split_inclusive(s, p).flatten() == s,
    decreases s.len(),
{
    if s.len() == 0 {
        assert(split_inclusive(s, p).flatten() =~= s);
    } else {
        let j = first_where(s, p, 0);
        lemma_first_where(s, p, 0);
        if 0 <= j < s.len() {
            lemma_split_inclusive_flatten(s.skip(j + 1), p);
            lemma_flatten_cons(s.take(j + 1), split_inclusive(s.skip(j + 1), p));
            assert(s =~= s.take(j + 1) + s.skip(j + 1));
        } else {
            lemma_flatten_cons(s, Seq::<Seq<char>>::empty());
            assert(s + Seq::<Seq<char>>::empty().flatten() =~= s);
        }
    }
}

/// Mapping the pieces through a function that removes whitespace only
/// keeps the other characters.
pub proof fn lemma_strip_flatten_map(xs: Seq<Seq<char>>, f: spec_fn(Seq<char>) -> Seq<char>)
    requires
        forall|l: Seq<char>| #[trigger] strip_ws(f(l)) == strip_ws(l),
    ensures
        strip_ws(xs.map_values(f).flatten()) == strip_ws(xs.flatten()),
    decreases xs.len(),
{
    if xs.len() > 0 {
        let ys = xs.drop_last();
        let x = xs.last();
        lemma_strip_flatten_map(ys, f);
        assert(xs =~= ys.push(x));
        assert(xs.map_values(f) =~= ys.map_values(f).push(f(x)));
        ys.lemma_flatten_push(x);
        ys.map_values(f).lemma_flatten_push(f(x));
        lemma_strip_add(ys.flatten(), x);
        lemma_strip_add(ys.map_values(f).flatten(), f(x));
        assert(strip_ws(f(x)) == strip_ws(x));
    } else {
        assert(xs.map_values(f) =~= Seq::<Seq<char>>::empty());
    }
}

/// Dropping pieces that have no characters but whitespace keeps the others.
pub proof fn lemma_strip_flatten_filter(xs: Seq<Seq<char>>, pred: spec_fn(Seq<char>) -> bool)
    requires
        forall|l: Seq<char>| !pred(l) ==> #[trigger] strip_ws(l) == Seq::<char>::empty(),
    ensures
        strip_ws(xs.filter(pred).flatten()) == strip_ws(xs.flatten()),
    decreases xs.len(),
{
    if xs.len() > 0 {
        let ys = xs.drop_last();
        let x = xs.last();
        lemma_strip_flatten_filter(ys, pred);
        assert(xs =~= ys.push(x));
        ys.lemma_filter_push(x, pred);
        ys.lemma_flatten_push(x);
        lemma_strip_add(ys.flatten(), x);
        if pred(x) {
            ys.filter(pred).lemma_flatten_push(x);
            lemma_strip_add(ys.filter(pred).flatten(), x);
        } else {
            assert(strip_ws(x) == Seq::<char>::empty());
            assert(strip_ws(ys.flatten()) + Seq::<char>::empty() =~= strip_ws(ys.flatten()));
        }
    } else {
        assert(xs.filter(pred) =~= Seq::<Seq<char>>::empty()) by {
            reveal(Seq::filter);
        }
    }
}

pub proof fn lemma_strip_line_end(l: Seq<char>)
    ensures
        strip_ws(strip_line_end(l)) == strip_ws(l),
{
    lemma_strip_separators();
    if l.len() > 0 && l.last() == '\n' {
        let m = l.drop_last();
        assert(l =~= m + seq!['\n']);
        lemma_strip_add(m, seq!['\n']);
        assert(strip_ws(m) + Seq::<char>::empty() =~= strip_ws(m));
        if m.len() > 0 && m.last() == '\r' {
            let k = m.drop_last();
            assert(m =~= k + seq!['\r']);
            lemma_strip_add(k, seq!['\r']);
            lemma_strip_all_ws(seq!['\r']);
            assert(strip_ws(k) + Seq::<char>::empty() =~= strip_ws(k));
        }
    }
}

/// Cutting into lines loses nothing but the line terminators.
pub proof fn lemma_strip_lines(s: Seq<char>)
    ensures
        strip_ws(lines(s).flatten()) == strip_ws(s),
{
    let f = |l: Seq<char>| strip_line_end(l);
    assert forall|l: Seq<char>| #[trigger] strip_ws(f(l)) == strip_ws(l) by {
        lemma_strip_line_end(l);
    }
    lemma_strip_flatten_map(split_inclusive(s, line_feed()), f);
    lemma_split_inclusive_flatten(s, line_feed());
}

} // verus!
