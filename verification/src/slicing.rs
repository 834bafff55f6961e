//! Splitting a section's text into slices bounded by the token limits.

use vstd::prelude::*;
use crate::text::{
    trim, lines, split_inclusive, sentence_end, paragraphs, views, lemma_views_push, copy_range,
    push_all, trim_chars, lines_of, split_inclusive_chars, split_paragraphs, string_of, strip_ws,
    lemma_strip_separators, lemma_strip_trim, lemma_strip_blank, lemma_strip_add, lemma_flatten_cons,
    lemma_strip_paragraphs,
};
use crate::slicing_laws::{held, lemma_held_step, lemma_held_flush, lemma_strip_sub_units};
use crate::tokens::{MIN_TOKENS, MAX_TOKENS, callable, deterministic, token_fn, count_tokens_of};

verus! {

/// The state of the splitter: the slice being filled and the slices done.
pub type SliceState = (Seq<char>, Seq<Seq<char>>);

pub open spec fn starts_with(s: Seq<char>, p: Seq<char>) -> bool {
    p.len() <= s.len() && s.take(p.len() as int) == p
}

pub open spec fn is_ascii_digit(c: char) -> bool {
    '0' <= c && c <= '9'
}

/// The index of the first character of `t` at or after `i` that is not an
/// ASCII digit (`t.len()` where there is none).
pub open spec fn digits_end(t: Seq<char>, i: int) -> int
    decreases t.len() - i,
{
    if 0 <= i < t.len() && is_ascii_digit(t[i]) {
        digits_end(t, i + 1)
    } else {
        i
    }
}

/// An ordered list marker: one to nine ASCII digits, then `.` or `)`, then a
/// space, a tab, or the end of the line.
pub open spec fn is_ordered_marker(t: Seq<char>) -> bool {
    let k = digits_end(t, 0);
    &&& 1 <= k <= 9
    &&& k < t.len()
    &&& (t[k] == '.' || t[k] == ')')
    &&& (k + 1 == t.len() || t[k + 1] == ' ' || t[k + 1] == '\t')
}

/// A line that, once trimmed, opens a list item: a bullet (`* `, `- `, `+ `)
/// or an ordered list marker.
pub open spec fn is_list_line(l: Seq<char>) -> bool {
    let t = trim(l);
    ||| starts_with(t, seq!['*', ' '])
    ||| starts_with(t, seq!['-', ' '])
    ||| starts_with(t, seq!['+', ' '])
    ||| is_ordered_marker(t)
}

pub open spec fn not_empty() -> spec_fn(Seq<char>) -> bool {
    |l: Seq<char>| l.len() > 0
}

/// The sentences of `text`, trimmed, without the empty ones.
pub open spec fn sentences(text: Seq<char>) -> Seq<Seq<char>> {
    split_inclusive(text, sentence_end()).map_values(|s: Seq<char>| trim(s)).filter(not_empty())
}

/// The units of one line of a list paragraph: the line itself where it
/// opens a list item, and otherwise its sentences (none for a blank line).
pub open spec fn line_units(l: Seq<char>) -> Seq<Seq<char>> {
    if is_list_line(l) {
        seq![l]
    } else {
        sentences(l)
    }
}

/// The units an oversized paragraph is cut into: where one of its lines
/// opens a list item, each list line (kept as it is) and the sentences of
/// the other lines, line by line; and otherwise its sentences.
pub open spec fn sub_units(text: Seq<char>) -> Seq<Seq<char>> {
    let ls = lines(text);
    if exists|i: int| 0 <= i < ls.len() && #[trigger] is_list_line(ls[i]) {
        ls.map_values(|l: Seq<char>| line_units(l)).flatten()
    } else {
        sentences(text)
    }
}

/// `cur`, then `sep`, then `item`; just `item` when `cur` is empty.
pub open spec fn joined(cur: Seq<char>, sep: Seq<char>, item: Seq<char>) -> Seq<char> {
    if cur.len() == 0 {
        item
    } else {
        cur + sep + item
    }
}

/// One attempt to add `item` to the slice being filled: it goes in when the
/// result stays within `MAX_TOKENS`; otherwise the slice is flushed when it
/// holds at least `MIN_TOKENS`, and `item` starts the next one; otherwise
/// nothing changes and the attempt fails.
pub open spec fn try_append_spec(
    item: Seq<char>,
    sep: Seq<char>,
    tok: spec_fn(Seq<char>) -> int,
    st: SliceState,
) -> (bool, SliceState) {
    let cand = joined(st.0, sep, item);
    if tok(cand) <= MAX_TOKENS {
        (true, (cand, st.1))
    } else if tok(st.0) >= MIN_TOKENS {
        (true, (item, st.1.push(st.0)))
    } else {
        (false, st)
    }
}

/// Adds one sub-unit, trimmed: by `try_append_spec` with a line feed, and
/// where that fails, the slice being filled is closed (when it is not
/// empty) and the unit starts the next one, so that no slice goes over
/// `MAX_TOKENS` but a single unit that does.
pub open spec fn unit_step(unit: Seq<char>, tok: spec_fn(Seq<char>) -> int, st: SliceState) -> SliceState {
    let u = trim(unit);
    if u.len() == 0 {
        st
    } else {
        let (ok, next) = try_append_spec(u, seq!['\n'], tok, st);
        if ok {
            next
        } else {
            (u, close(st))
        }
    }
}

/// The slices done, with the slice being filled added where it is not empty.
pub open spec fn close(st: SliceState) -> Seq<Seq<char>> {
    if st.0.len() == 0 {
        st.1
    } else {
        st.1.push(st.0)
    }
}

pub open spec fn process_units(
    units: Seq<Seq<char>>,
    tok: spec_fn(Seq<char>) -> int,
    st: SliceState,
) -> SliceState
    decreases units.len(),
{
    if units.len() == 0 {
        st
    } else {
        process_units(units.drop_first(), tok, unit_step(units[0], tok, st))
    }
}

/// Adds one paragraph, trimmed. A paragraph over `MAX_TOKENS` flushes the
/// slice being filled when it holds at least `MIN_TOKENS`, and goes in by
/// sub-units; another one goes in whole by `try_append_spec` with a blank
/// line, or by sub-units where that fails.
pub open spec fn para_step(para: Seq<char>, tok: spec_fn(Seq<char>) -> int, st: SliceState) -> SliceState {
    let p = trim(para);
    if p.len() == 0 {
        st
    } else if tok(p) > MAX_TOKENS {
        let st1 = if tok(st.0) >= MIN_TOKENS {
            (Seq::<char>::empty(), st.1.push(st.0))
        } else {
            st
        };
        process_units(sub_units(p), tok, st1)
    } else {
        let (ok, next) = try_append_spec(p, seq!['\n', '\n'], tok, st);
        if ok {
            next
        } else {
            process_units(sub_units(p), tok, st)
        }
    }
}

pub open spec fn process_paras(
    paras: Seq<Seq<char>>,
    tok: spec_fn(Seq<char>) -> int,
    st: SliceState,
) -> SliceState
    decreases paras.len(),
{
    if paras.len() == 0 {
        st
    } else {
        process_paras(paras.drop_first(), tok, para_step(paras[0], tok, st))
    }
}

/// The slices done, and the slice being filled, trimmed, where it is not blank.
pub open spec fn finish(st: SliceState) -> Seq<Seq<char>> {
    if trim(st.0).len() > 0 {
        st.1.push(trim(st.0))
    } else {
        st.1
    }
}

/// The slices of `text`: none for empty text, the text itself where it fits
/// in `MAX_TOKENS`, and otherwise the slices that its paragraphs fill.
pub open spec fn slices_of(text: Seq<char>, tok: spec_fn(Seq<char>) -> int) -> Seq<Seq<char>> {
    if text.len() == 0 {
        seq![]
    } else if tok(text) <= MAX_TOKENS {
        seq![text]
    } else {
        finish(process_paras(paragraphs(text), tok, (Seq::<char>::empty(), Seq::<Seq<char>>::empty())))
    }
}

pub open spec fn strings(v: Seq<String>) -> Seq<Seq<char>> {
    v.map_values(|s: String| s@)
}

fn copy_all(s: &Vec<char>) -> (r: Vec<char>)
    ensures
        r@ == s@,
{
    let r = copy_range(s, 0, s.len());
    assert(s@.subrange(0, s@.len() as int) =~= s@);
    r
}

/// Tries to add `item` to `current`, behind `separator`, as
/// `try_append_spec` says; tells whether it did.
pub fn try_append<F: Fn(&str) -> usize>(
    item: &Vec<char>,
    separator: &Vec<char>,
    count_tokens: &F,
    current: &mut Vec<char>,
    slices: &mut Vec<Vec<char>>,
) -> (appended: bool)
    requires
        callable(*count_tokens),
    ensures
        !appended ==> final(current)@ == old(current)@ && views(final(slices)@) == views(
            old(slices)@,
        ),
        appended ==> (final(current)@ == joined(old(current)@, separator@, item@) && views(
            final(slices)@,
        ) == views(old(slices)@)) || (final(current)@ == item@ && views(final(slices)@) == views(
            old(slices)@,
        ).push(old(current)@)),
        deterministic(*count_tokens) ==> (appended, (final(current)@, views(final(slices)@)))
            == try_append_spec(
            item@,
            separator@,
            token_fn(*count_tokens),
            (old(current)@, views(old(slices)@)),
        ),
{
    let candidate = if current.len() == 0 {
        copy_all(item)
    } else {
        let mut c = copy_all(current);
        push_all(&mut c, separator);
        push_all(&mut c, item);
        c
    };
    assert(candidate@ =~= joined(current@, separator@, item@));
    if count_tokens_of(count_tokens, &candidate) <= MAX_TOKENS {
        *current = candidate;
        return true;
    }
    if count_tokens_of(count_tokens, current) >= MIN_TOKENS {
        let mut taken: Vec<char> = Vec::new();
        std::mem::swap(&mut taken, current);
        proof {
            lemma_views_push(slices@, taken);
        }
        slices.push(taken);
        *current = copy_all(item);
        return true;
    }
    false
}

/// Adds each sub-unit of `sub_units` to the slices, as `process_units` says.
/// Whatever the counts, the slices done stay, and no text but whitespace is
/// lost or added.
pub fn process_sub_units<F: Fn(&str) -> usize>(
    sub_units: &Vec<Vec<char>>,
    count_tokens: &F,
    current: &mut Vec<char>,
    slices: &mut Vec<Vec<char>>,
)
    requires
        callable(*count_tokens),
    ensures
        held((final(current)@, views(final(slices)@))) == held(
            (old(current)@, views(old(slices)@)),
        ) + strip_ws(views(sub_units@).flatten()),
        views(old(slices)@).len() <= views(final(slices)@).len(),
        views(final(slices)@).take(views(old(slices)@).len() as int) == views(old(slices)@),
        deterministic(*count_tokens) ==> (final(current)@, views(final(slices)@)) == process_units(
            views(sub_units@),
            token_fn(*count_tokens),
            (old(current)@, views(old(slices)@)),
        ),
{
    let ghost tok = token_fn(*count_tokens);
    let ghost units = views(sub_units@);
    let ghost st0 = (current@, views(slices@));
    let ghost n0 = views(slices@).len();
    let newline = vec!['\n'];
    assert(newline@ =~= seq!['\n']);
    let mut i: usize = 0;
    assert(units.skip(0) =~= units);
    assert(units.take(0).flatten() =~= Seq::<char>::empty()) by {
        assert(units.take(0) =~= Seq::<Seq<char>>::empty());
    }
    proof {
        lemma_strip_separators();
        assert(held(st0) + Seq::<char>::empty() =~= held(st0));
        assert(views(slices@).take(n0 as int) =~= st0.1);
    }
    while i < sub_units.len()
        invariant
            callable(*count_tokens),
            tok == token_fn(*count_tokens),
            units == views(sub_units@),
            newline@ == seq!['\n'],
            i <= sub_units@.len(),
            st0 == (old(current)@, views(old(slices)@)),
            n0 == st0.1.len(),
            held((current@, views(slices@))) == held(st0) + strip_ws(units.take(i as int).flatten()),
            n0 <= views(slices@).len(),
            views(slices@).take(n0 as int) == st0.1,
            deterministic(*count_tokens) ==> process_units(
                units.skip(i as int),
                tok,
                (current@, views(slices@)),
            ) == process_units(units, tok, st0),
        decreases sub_units@.len() - i,
    {
        let ghost st = (current@, views(slices@));
        assert(units.skip(i as int).drop_first() =~= units.skip(i + 1));
        assert(units.skip(i as int)[0] == sub_units@[i as int]@);
        assert(units[i as int] == sub_units@[i as int]@);
        let unit = trim_chars(&sub_units[i]);
        proof {
            lemma_strip_trim(units[i as int]);
        }
        if unit.len() > 0 {
            if !try_append(&unit, &newline, count_tokens, current, slices) {
                if current.len() > 0 {
                    let mut taken: Vec<char> = Vec::new();
                    std::mem::swap(&mut taken, current);
                    proof {
                        lemma_views_push(slices@, taken);
                    }
                    slices.push(taken);
                }
                assert(views(slices@) == close(st));
                *current = unit;
            }
            proof {
                lemma_strip_separators();
                lemma_held_step(st, seq!['\n'], unit@);
                assert(held((current@, views(slices@))) == held(st) + strip_ws(unit@));
            }
        } else {
            proof {
                lemma_strip_blank(units[i as int]);
                assert(held(st) + Seq::<char>::empty() =~= held(st));
            }
        }
        proof {
            assert(units.take(i + 1) =~= units.take(i as int).push(units[i as int]));
            units.take(i as int).lemma_flatten_push(units[i as int]);
            lemma_strip_add(units.take(i as int).flatten(), units[i as int]);
            assert(held((current@, views(slices@))) =~= held(st0) + strip_ws(
                units.take(i + 1).flatten(),
            ));
            assert(views(slices@).take(n0 as int) =~= st0.1);
        }
        assert(deterministic(*count_tokens) ==> (current@, views(slices@)) == unit_step(
            units[i as int],
            tok,
            st,
        ));
        i += 1;
    }
    assert(units.skip(sub_units@.len() as int) =~= Seq::<Seq<char>>::empty());
    assert(units.take(sub_units@.len() as int) =~= units);
}

fn is_list_line_chars(l: &Vec<char>) -> (b: bool)
    ensures
        b == is_list_line(l@),
{
    let t = trim_chars(l);
    let n: usize = t.len();
    if n >= 2 {
        assert(t@.take(2) =~= seq![t@[0], t@[1]]);
    }
    let mut k: usize = 0;
    while k < n && '0' <= t[k] && t[k] <= '9'
        invariant
            k <= n == t@.len(),
            digits_end(t@, 0) == digits_end(t@, k as int),
        decreases n - k,
    {
        k += 1;
    }
    let ordered = 1 <= k && k <= 9 && k < n && (t[k] == '.' || t[k] == ')') && (k + 1 == n
        || t[k + 1] == ' ' || t[k + 1] == '\t');
    (n >= 2 && (t[0] == '*' || t[0] == '-' || t[0] == '+') && t[1] == ' ') || ordered
}

/// Cuts `text` into its sentences, as `sentences` says.
pub fn split_sentences(text: &Vec<char>) -> (r: Vec<Vec<char>>)
    ensures
        views(r@) == sentences(text@),
{
    let mut out: Vec<Vec<char>> = Vec::new();
    let pieces = split_inclusive_chars(text, false);
    let ghost pv = views(pieces@);
    let ghost tv = pv.map_values(|s: Seq<char>| trim(s));
    let mut i: usize = 0;
    while i < pieces.len()
        invariant
            i <= pieces@.len(),
            pv == views(pieces@),
            pv == split_inclusive(text@, sentence_end()),
            tv == pv.map_values(|s: Seq<char>| trim(s)),
            views(out@) == tv.take(i as int).filter(not_empty()),
        decreases pieces@.len() - i,
    {
        let t = trim_chars(&pieces[i]);
        assert(tv.take(i + 1) =~= tv.take(i as int).push(tv[i as int]));
        proof {
            tv.take(i as int).lemma_filter_push(tv[i as int], not_empty());
        }
        if t.len() > 0 {
            proof {
                lemma_views_push(out@, t);
            }
            out.push(t);
        }
        i += 1;
    }
    assert(tv.take(pieces@.len() as int) =~= tv);
    out
}

/// Cuts an oversized paragraph into the units that `sub_units` describes.
pub fn split_into_sub_units(text: &Vec<char>) -> (r: Vec<Vec<char>>)
    ensures
        views(r@) == sub_units(text@),
{
    let ls = lines_of(text);
    let ghost lv = views(ls@);
    let mut has_list = false;
    let mut i: usize = 0;
    while i < ls.len()
        invariant
            i <= ls@.len(),
            lv == views(ls@),
            has_list == exists|j: int| 0 <= j < i && #[trigger] is_list_line(lv[j]),
        decreases ls@.len() - i,
    {
        if is_list_line_chars(&ls[i]) {
            has_list = true;
        }
        assert(lv[i as int] == ls@[i as int]@);
        i += 1;
    }
    if !has_list {
        return split_sentences(text);
    }
    let ghost uv = lv.map_values(|l: Seq<char>| line_units(l));
    let mut out: Vec<Vec<char>> = Vec::new();
    let mut i: usize = 0;
    assert(uv.take(0) =~= Seq::<Seq<Seq<char>>>::empty());
    assert(views(out@) =~= uv.take(0).flatten());
    while i < ls.len()
        invariant
            i <= ls@.len(),
            lv == views(ls@),
            uv == lv.map_values(|l: Seq<char>| line_units(l)),
            views(out@) == uv.take(i as int).flatten(),
        decreases ls@.len() - i,
    {
        let ghost before = views(out@);
        assert(lv[i as int] == ls@[i as int]@);
        if is_list_line_chars(&ls[i]) {
            let line = copy_all(&ls[i]);
            proof {
                lemma_views_push(out@, line);
            }
            out.push(line);
            assert(views(out@) =~= before + line_units(lv[i as int]));
        } else {
            let sents = split_sentences(&ls[i]);
            let mut k: usize = 0;
            while k < sents.len()
                invariant
                    k <= sents@.len(),
                    views(out@) == before + views(sents@).take(k as int),
                decreases sents@.len() - k,
            {
                let sc = copy_all(&sents[k]);
                proof {
                    lemma_views_push(out@, sc);
                }
                out.push(sc);
                assert(views(sents@).take(k + 1) =~= views(sents@).take(k as int).push(sents@[k as int]@));
                k += 1;
            }
            assert(views(sents@).take(sents@.len() as int) =~= views(sents@));
        }
        proof {
            assert(uv.take(i + 1) =~= uv.take(i as int).push(uv[i as int]));
            uv.take(i as int).lemma_flatten_push(uv[i as int]);
        }
        i += 1;
    }
    assert(uv.take(ls@.len() as int) =~= uv);
    out
}

pub proof fn lemma_strings_push(v: Seq<String>, x: String)
    ensures
        strings(v.push(x)) == strings(v).push(x@),
{
    assert(strings(v.push(x)) =~= strings(v).push(x@));
}

/// The strings holding the given character vectors.
pub fn strings_of(v: &Vec<Vec<char>>) -> (r: Vec<String>)
    ensures
        strings(r@) == views(v@),
{
    let mut out: Vec<String> = Vec::new();
    let mut i: usize = 0;
    while i < v.len()
        invariant
            i <= v@.len(),
            strings(out@) == views(v@).take(i as int),
        decreases v@.len() - i,
    {
        let s = string_of(&v[i]);
        proof {
            lemma_strings_push(out@, s);
        }
        out.push(s);
        assert(views(v@).take(i + 1) =~= views(v@).take(i as int).push(v@[i as int]@));
        i += 1;
    }
    assert(views(v@).take(v@.len() as int) =~= views(v@));
    out
}

/// Splits `text` into slices, as `slices_of` says.
pub fn split_text_into_slices<F: Fn(&str) -> usize>(text: &Vec<char>, count_tokens: &F) -> (r: Vec<
    String,
>)
    requires
        callable(*count_tokens),
    ensures
        strip_ws(strings(r@).flatten()) == strip_ws(text@),
        deterministic(*count_tokens) ==> strings(r@) == slices_of(text@, token_fn(*count_tokens)),
{
    let ghost tok = token_fn(*count_tokens);
    proof {
        lemma_strip_separators();
    }
    if text.len() == 0 {
        let r: Vec<String> = Vec::new();
        assert(strings(r@) =~= Seq::<Seq<char>>::empty());
        assert(text@ =~= Seq::<char>::empty());
        return r;
    }
    if count_tokens_of(count_tokens, text) <= MAX_TOKENS {
        let mut r: Vec<String> = Vec::new();
        let s = string_of(text);
        proof {
            lemma_strings_push(r@, s);
        }
        r.push(s);
        assert(strings(r@) =~= seq![text@]);
        proof {
            lemma_flatten_cons(text@, Seq::<Seq<char>>::empty());
            assert(seq![text@] =~= seq![text@] + Seq::<Seq<char>>::empty());
            assert(text@ + Seq::<Seq<char>>::empty().flatten() =~= text@);
        }
        return r;
    }
    let mut slices: Vec<Vec<char>> = Vec::new();
    let mut current: Vec<char> = Vec::new();
    let blank = vec!['\n', '\n'];
    assert(blank@ =~= seq!['\n', '\n']);
    let paras = split_paragraphs(text);
    let ghost pv = views(paras@);
    let ghost st0 = (Seq::<char>::empty(), Seq::<Seq<char>>::empty());
    assert(pv.skip(0) =~= pv);
    assert(views(slices@) =~= Seq::<Seq<char>>::empty());
    assert(current@ =~= Seq::<char>::empty());
    assert(pv.take(0) =~= Seq::<Seq<char>>::empty());
    assert(held((current@, views(slices@))) =~= strip_ws(pv.take(0).flatten()));
    let mut i: usize = 0;
    while i < paras.len()
        invariant
            pv == paragraphs(text@),
            held((current@, views(slices@))) == strip_ws(pv.take(i as int).flatten()),
            callable(*count_tokens),
            tok == token_fn(*count_tokens),
            pv == views(paras@),
            blank@ == seq!['\n', '\n'],
            i <= paras@.len(),
            deterministic(*count_tokens) ==> process_paras(
                pv.skip(i as int),
                tok,
                (current@, views(slices@)),
            ) == process_paras(pv, tok, st0),
        decreases paras@.len() - i,
    {
        let ghost st = (current@, views(slices@));
        assert(pv.skip(i as int).drop_first() =~= pv.skip(i + 1));
        assert(pv.skip(i as int)[0] == paras@[i as int]@);
        let para = trim_chars(&paras[i]);
        proof {
            lemma_strip_trim(pv[i as int]);
            lemma_strip_sub_units(para@);
        }
        if para.len() > 0 {
            if count_tokens_of(count_tokens, &para) > MAX_TOKENS {
                if count_tokens_of(count_tokens, &current) >= MIN_TOKENS {
                    let mut taken: Vec<char> = Vec::new();
                    std::mem::swap(&mut taken, &mut current);
                    proof {
                        lemma_views_push(slices@, taken);
                        lemma_held_flush(st);
                    }
                    slices.push(taken);
                }
                let subs = split_into_sub_units(&para);
                process_sub_units(&subs, count_tokens, &mut current, &mut slices);
            } else if !try_append(&para, &blank, count_tokens, &mut current, &mut slices) {
                let subs = split_into_sub_units(&para);
                process_sub_units(&subs, count_tokens, &mut current, &mut slices);
            } else {
                proof {
                    lemma_strip_separators();
                    lemma_held_step(st, seq!['\n', '\n'], para@);
                }
            }
            assert(held((current@, views(slices@))) == held(st) + strip_ws(pv[i as int]));
        } else {
            proof {
                lemma_strip_blank(pv[i as int]);
                assert(held(st) + Seq::<char>::empty() =~= held(st));
            }
        }
        proof {
            assert(pv.take(i + 1) =~= pv.take(i as int).push(pv[i as int]));
            pv.take(i as int).lemma_flatten_push(pv[i as int]);
            lemma_strip_add(pv.take(i as int).flatten(), pv[i as int]);
        }
        assert(deterministic(*count_tokens) ==> (current@, views(slices@)) == para_step(
            pv[i as int],
            tok,
            st,
        ));
        i += 1;
    }
    assert(pv.skip(paras@.len() as int) =~= Seq::<Seq<char>>::empty());
    assert(pv.take(paras@.len() as int) =~= pv);
    proof {
        lemma_strip_paragraphs(text@);
        lemma_strip_trim(current@);
    }
    let ghost before = views(slices@);
    let rest = trim_chars(&current);
    if rest.len() > 0 {
        proof {
            lemma_views_push(slices@, rest);
            before.lemma_flatten_push(rest@);
            lemma_strip_add(before.flatten(), rest@);
        }
        slices.push(rest);
    } else {
        proof {
            lemma_strip_blank(current@);
            assert(strip_ws(before.flatten()) + Seq::<char>::empty() =~= strip_ws(before.flatten()));
        }
    }
    strings_of(&slices)
}

} // verus!
