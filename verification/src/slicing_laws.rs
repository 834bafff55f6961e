//! Properties of the slices that `slices_of` describes, for every token
//! counting function.

use vstd::prelude::*;
use crate::tokens::{MIN_TOKENS, MAX_TOKENS};
use vstd::seq_lib::lemma_flatten_concat;
use crate::slicing::{
    SliceState, slices_of, try_append_spec, unit_step, process_units, para_step, process_paras,
    finish, sub_units, joined, not_empty, is_list_line, is_ordered_marker, digits_end, is_ascii_digit, close, starts_with, sentences, line_units,
};
use crate::text::{
    trim, trim_start, trim_end, is_ws, strip_ws, lines, paragraphs, split_inclusive, sentence_end, lemma_strip_add,
    lemma_strip_separators, lemma_strip_trim, lemma_strip_blank, lemma_strip_paragraphs,
    lemma_split_inclusive_flatten, lemma_strip_flatten_map, lemma_strip_flatten_filter,
    lemma_strip_lines, lemma_flatten_cons,
};

verus! {

/// A non-empty text that fits in `MAX_TOKENS` is kept whole, as one slice.
pub proof fn law_fitting_text_is_one_slice(text: Seq<char>, tok: spec_fn(Seq<char>) -> int)
    requires
        text.len() > 0,
        tok(text) <= MAX_TOKENS,
    ensures
        slices_of(text, tok) == seq![text],
{
}

/// The non-whitespace characters held by a splitter state: those of the
/// slices done, then those of the slice being filled.
pub open spec fn held(st: SliceState) -> Seq<char> {
    strip_ws(st.1.flatten()) + strip_ws(st.0)
}

pub proof fn lemma_held_flush(st: SliceState)
    ensures
        held((Seq::<char>::empty(), st.1.push(st.0))) == held(st),
        strip_ws(st.1.push(st.0).flatten()) == held(st),
{
    st.1.lemma_flatten_push(st.0);
    lemma_strip_add(st.1.flatten(), st.0);
    lemma_strip_separators();
    assert(held((Seq::<char>::empty(), st.1.push(st.0))) =~= held(st));
}

pub proof fn lemma_strip_joined(cur: Seq<char>, sep: Seq<char>, item: Seq<char>)
    requires
        strip_ws(sep) == Seq::<char>::empty(),
    ensures
        strip_ws(joined(cur, sep, item)) == strip_ws(cur) + strip_ws(item),
{
    lemma_strip_separators();
    if cur.len() == 0 {
        assert(cur =~= Seq::<char>::empty());
        assert(Seq::<char>::empty() + strip_ws(item) =~= strip_ws(item));
    } else {
        lemma_strip_add(cur + sep, item);
        lemma_strip_add(cur, sep);
        assert(strip_ws(cur) + Seq::<char>::empty() =~= strip_ws(cur));
    }
}

/// One step of the splitter that adds `item`, whichever way it goes,
/// adds its characters but whitespace to those the state holds.
pub proof fn lemma_held_step(st: SliceState, sep: Seq<char>, item: Seq<char>)
    requires
        strip_ws(sep) == Seq::<char>::empty(),
    ensures
        held((joined(st.0, sep, item), st.1)) == held(st) + strip_ws(item),
        held((item, st.1.push(st.0))) == held(st) + strip_ws(item),
        held((item, close(st))) == held(st) + strip_ws(item),
{
    lemma_strip_joined(st.0, sep, item);
    lemma_held_flush(st);
    lemma_strip_separators();
    assert(held((joined(st.0, sep, item), st.1)) =~= held(st) + strip_ws(item));
    assert(held((item, st.1.push(st.0))) =~= held(st) + strip_ws(item));
    if st.0.len() == 0 {
        assert(st.0 =~= Seq::<char>::empty());
        assert(held(st) =~= strip_ws(st.1.flatten()));
    }
    assert(held((item, close(st))) =~= held(st) + strip_ws(item));
}

proof fn lemma_try_append_held(item: Seq<char>, sep: Seq<char>, tok: spec_fn(Seq<char>) -> int, st: SliceState)
    requires
        strip_ws(sep) == Seq::<char>::empty(),
    ensures
        try_append_spec(item, sep, tok, st).0 ==> held(try_append_spec(item, sep, tok, st).1)
            == held(st) + strip_ws(item),
{
    lemma_strip_joined(st.0, sep, item);
    lemma_held_flush(st);
    let r = try_append_spec(item, sep, tok, st);
    if r.0 {
        assert(held(r.1) =~= held(st) + strip_ws(item));
    }
}

proof fn lemma_unit_step_held(unit: Seq<char>, tok: spec_fn(Seq<char>) -> int, st: SliceState)
    ensures
        held(unit_step(unit, tok, st)) == held(st) + strip_ws(unit),
{
    lemma_strip_separators();
    lemma_strip_trim(unit);
    let u = trim(unit);
    if u.len() == 0 {
        lemma_strip_blank(unit);
        assert(held(st) + Seq::<char>::empty() =~= held(st));
    } else {
        lemma_try_append_held(u, seq!['\n'], tok, st);
        lemma_held_step(st, seq!['\n'], u);
    }
}

proof fn lemma_process_units_held(units: Seq<Seq<char>>, tok: spec_fn(Seq<char>) -> int, st: SliceState)
    ensures
        held(process_units(units, tok, st)) == held(st) + strip_ws(units.flatten()),
    decreases units.len(),
{
    if units.len() == 0 {
        lemma_strip_separators();
        assert(units.flatten() =~= Seq::<char>::empty());
        assert(held(st) + Seq::<char>::empty() =~= held(st));
    } else {
        let st1 = unit_step(units[0], tok, st);
        lemma_unit_step_held(units[0], tok, st);
        lemma_process_units_held(units.drop_first(), tok, st1);
        assert(units =~= seq![units[0]] + units.drop_first());
        lemma_flatten_cons(units[0], units.drop_first());
        lemma_strip_add(units[0], units.drop_first().flatten());
        assert(held(st) + strip_ws(units[0]) + strip_ws(units.drop_first().flatten()) =~= held(st)
            + strip_ws(units.flatten()));
    }
}

/// Cutting a text into sentences loses nothing but whitespace.
pub proof fn lemma_strip_sentences(p: Seq<char>)
    ensures
        strip_ws(sentences(p).flatten()) == strip_ws(p),
{
    let pieces = split_inclusive(p, sentence_end());
    let f = |s: Seq<char>| trim(s);
    assert forall|l: Seq<char>| #[trigger] strip_ws(f(l)) == strip_ws(l) by {
        lemma_strip_trim(l);
    }
    lemma_strip_flatten_map(pieces, f);
    assert forall|l: Seq<char>| !(not_empty())(l) implies #[trigger] strip_ws(l)
        == Seq::<char>::empty() by {
        assert(l =~= Seq::<char>::empty());
        lemma_strip_separators();
    }
    lemma_strip_flatten_filter(pieces.map_values(f), not_empty());
    lemma_split_inclusive_flatten(p, sentence_end());
}

proof fn lemma_strip_line_units(ls: Seq<Seq<char>>)
    ensures
        strip_ws(ls.map_values(|l: Seq<char>| line_units(l)).flatten().flatten()) == strip_ws(
            ls.flatten(),
        ),
    decreases ls.len(),
{
    let g = |l: Seq<char>| line_units(l);
    if ls.len() == 0 {
        assert(ls.map_values(g) =~= Seq::<Seq<Seq<char>>>::empty());
        assert(ls.map_values(g).flatten() =~= Seq::<Seq<char>>::empty());
        assert(ls.flatten() =~= Seq::<char>::empty());
    } else {
        let init = ls.drop_last();
        let l = ls.last();
        lemma_strip_line_units(init);
        assert(ls =~= init.push(l));
        assert(ls.map_values(g) =~= init.map_values(g).push(line_units(l)));
        init.map_values(g).lemma_flatten_push(line_units(l));
        lemma_flatten_concat(init.map_values(g).flatten(), line_units(l));
        init.lemma_flatten_push(l);
        lemma_strip_add(init.map_values(g).flatten().flatten(), line_units(l).flatten());
        lemma_strip_add(init.flatten(), l);
        if is_list_line(l) {
            lemma_flatten_cons(l, Seq::<Seq<char>>::empty());
            assert(seq![l] =~= seq![l] + Seq::<Seq<char>>::empty());
            assert(l + Seq::<Seq<char>>::empty().flatten() =~= l);
        } else {
            lemma_strip_sentences(l);
        }
    }
}

/// Cutting a paragraph into sub-units loses nothing but whitespace.
pub proof fn lemma_strip_sub_units(p: Seq<char>)
    ensures
        strip_ws(sub_units(p).flatten()) == strip_ws(p),
{
    let ls = lines(p);
    if exists|i: int| 0 <= i < ls.len() && #[trigger] is_list_line(ls[i]) {
        lemma_strip_line_units(ls);
        lemma_strip_lines(p);
    } else {
        lemma_strip_sentences(p);
    }
}

proof fn lemma_para_step_held(para: Seq<char>, tok: spec_fn(Seq<char>) -> int, st: SliceState)
    ensures
        held(para_step(para, tok, st)) == held(st) + strip_ws(para),
{
    lemma_strip_separators();
    lemma_strip_trim(para);
    let p = trim(para);
    if p.len() == 0 {
        lemma_strip_blank(para);
        assert(held(st) + Seq::<char>::empty() =~= held(st));
    } else {
        lemma_strip_sub_units(p);
        if tok(p) > MAX_TOKENS {
            let st1 = if tok(st.0) >= MIN_TOKENS {
                (Seq::<char>::empty(), st.1.push(st.0))
            } else {
                st
            };
            lemma_held_flush(st);
            lemma_process_units_held(sub_units(p), tok, st1);
        } else {
            lemma_try_append_held(p, seq!['\n', '\n'], tok, st);
            lemma_process_units_held(sub_units(p), tok, st);
        }
    }
}

proof fn lemma_process_paras_held(paras: Seq<Seq<char>>, tok: spec_fn(Seq<char>) -> int, st: SliceState)
    ensures
        held(process_paras(paras, tok, st)) == held(st) + strip_ws(paras.flatten()),
    decreases paras.len(),
{
    if paras.len() == 0 {
        lemma_strip_separators();
        assert(paras.flatten() =~= Seq::<char>::empty());
        assert(held(st) + Seq::<char>::empty() =~= held(st));
    } else {
        let st1 = para_step(paras[0], tok, st);
        lemma_para_step_held(paras[0], tok, st);
        lemma_process_paras_held(paras.drop_first(), tok, st1);
        assert(paras =~= seq![paras[0]] + paras.drop_first());
        lemma_flatten_cons(paras[0], paras.drop_first());
        lemma_strip_add(paras[0], paras.drop_first().flatten());
        assert(held(st) + strip_ws(paras[0]) + strip_ws(paras.drop_first().flatten()) =~= held(st)
            + strip_ws(paras.flatten()));
    }
}

/// Splitting loses and adds no text but whitespace: the slices, put back
/// together, hold the characters of the text other than whitespace, in
/// their order.
pub proof fn law_slices_keep_text(text: Seq<char>, tok: spec_fn(Seq<char>) -> int)
    ensures
        strip_ws(slices_of(text, tok).flatten()) == strip_ws(text),
{
    lemma_strip_separators();
    if text.len() == 0 {
        assert(slices_of(text, tok).flatten() =~= Seq::<char>::empty());
        assert(text =~= Seq::<char>::empty());
    } else if tok(text) <= MAX_TOKENS {
        lemma_flatten_cons(text, Seq::<Seq<char>>::empty());
        assert(seq![text] =~= seq![text] + Seq::<Seq<char>>::empty());
        assert(text + Seq::<Seq<char>>::empty().flatten() =~= text);
    } else {
        let st0 = (Seq::<char>::empty(), Seq::<Seq<char>>::empty());
        let paras = paragraphs(text);
        let st = process_paras(paras, tok, st0);
        lemma_process_paras_held(paras, tok, st0);
        lemma_strip_paragraphs(text);
        assert(st0.1.flatten() =~= Seq::<char>::empty());
        assert(held(st0) =~= Seq::<char>::empty());
        assert(held(st) =~= strip_ws(text));
        lemma_strip_trim(st.0);
        if trim(st.0).len() > 0 {
            st.1.lemma_flatten_push(trim(st.0));
            lemma_strip_add(st.1.flatten(), trim(st.0));
        } else {
            lemma_strip_blank(st.0);
            assert(strip_ws(st.1.flatten()) + Seq::<char>::empty() =~= strip_ws(st.1.flatten()));
        }
    }
}

/// `s` is one of the units that the text's paragraphs are cut into: a
/// trimmed sub-unit of a trimmed paragraph.
pub open spec fn is_unit_of(s: Seq<char>, text: Seq<char>) -> bool {
    exists|i: int, j: int|
        #![trigger sub_units(trim(paragraphs(text)[i]))[j]]
        0 <= i < paragraphs(text).len() && 0 <= j < sub_units(trim(paragraphs(text)[i])).len()
            && s == trim(sub_units(trim(paragraphs(text)[i]))[j])
}

/// A slice within the limit: at most `MAX_TOKENS` tokens, or a single unit
/// that is over it alone, or empty.
pub open spec fn within_limit(s: Seq<char>, tok: spec_fn(Seq<char>) -> int, text: Seq<char>) -> bool {
    s.len() == 0 || tok(s) <= MAX_TOKENS || is_unit_of(s, text)
}

/// No whitespace at either end.
pub open spec fn tight(s: Seq<char>) -> bool {
    s.len() == 0 || (!is_ws(s[0]) && !is_ws(s.last()))
}

pub open spec fn limit_inv(st: SliceState, tok: spec_fn(Seq<char>) -> int, text: Seq<char>) -> bool {
    &&& tight(st.0)
    &&& within_limit(st.0, tok, text)
    &&& forall|k: int| 0 <= k < st.1.len() ==> within_limit(#[trigger] st.1[k], tok, text)
}

proof fn lemma_trim_start_shape(s: Seq<char>)
    ensures
        trim_start(s).len() > 0 ==> !is_ws(trim_start(s)[0]),
        trim_start(s).len() > 0 ==> trim_start(s).last() == s.last(),
    decreases s.len(),
{
    if s.len() > 0 && is_ws(s[0]) {
        lemma_trim_start_shape(s.drop_first());
    }
}

pub proof fn lemma_trim_end_shape(s: Seq<char>)
    ensures
        trim_end(s).len() > 0 ==> !is_ws(trim_end(s).last()),
        trim_end(s).len() > 0 ==> trim_end(s)[0] == s[0],
    decreases s.len(),
{
    if s.len() > 0 && is_ws(s.last()) {
        lemma_trim_end_shape(s.drop_last());
    }
}

pub proof fn lemma_tight_trim(s: Seq<char>)
    ensures
        tight(trim(s)),
{
    lemma_trim_start_shape(s);
    lemma_trim_end_shape(trim_start(s));
}

pub proof fn lemma_trim_tight(s: Seq<char>)
    requires
        tight(s),
    ensures
        trim(s) == s,
{
}

proof fn lemma_tight_joined(a: Seq<char>, sep: Seq<char>, b: Seq<char>)
    requires
        tight(a),
        tight(b),
        b.len() > 0,
    ensures
        tight(joined(a, sep, b)),
{
    if a.len() > 0 {
        let j = a + sep + b;
        assert(j[0] == a[0]);
        assert(j.last() == b.last());
    }
}

proof fn lemma_try_append_limit(
    item: Seq<char>,
    sep: Seq<char>,
    tok: spec_fn(Seq<char>) -> int,
    st: SliceState,
    text: Seq<char>,
)
    requires
        limit_inv(st, tok, text),
        tight(item),
        item.len() > 0,
        tok(item) <= MAX_TOKENS || is_unit_of(item, text),
    ensures
        limit_inv(try_append_spec(item, sep, tok, st).1, tok, text),
{
    lemma_tight_joined(st.0, sep, item);
    let r = try_append_spec(item, sep, tok, st).1;
    assert forall|k: int| 0 <= k < r.1.len() implies within_limit(#[trigger] r.1[k], tok, text) by {
        if k < st.1.len() {
            assert(r.1[k] == st.1[k]);
        }
    }
}

proof fn lemma_process_units_limit(
    units: Seq<Seq<char>>,
    tok: spec_fn(Seq<char>) -> int,
    st: SliceState,
    text: Seq<char>,
)
    requires
        limit_inv(st, tok, text),
        forall|j: int| 0 <= j < units.len() ==> is_unit_of(trim(#[trigger] units[j]), text),
    ensures
        limit_inv(process_units(units, tok, st), tok, text),
    decreases units.len(),
{
    if units.len() > 0 {
        let u = trim(units[0]);
        assert(is_unit_of(trim(units[0]), text));
        lemma_tight_trim(units[0]);
        let st1 = unit_step(units[0], tok, st);
        if u.len() > 0 {
            lemma_try_append_limit(u, seq!['\n'], tok, st, text);
            let c = close(st);
            assert forall|k: int| 0 <= k < c.len() implies within_limit(#[trigger] c[k], tok, text) by {
                if k < st.1.len() {
                    assert(c[k] == st.1[k]);
                }
            }
        }
        assert(limit_inv(st1, tok, text));
        let rest = units.drop_first();
        assert forall|j: int| 0 <= j < rest.len() implies is_unit_of(trim(#[trigger] rest[j]), text) by {
            assert(rest[j] == units[j + 1]);
        }
        lemma_process_units_limit(rest, tok, st1, text);
    }
}

proof fn lemma_process_paras_limit(
    text: Seq<char>,
    k: int,
    tok: spec_fn(Seq<char>) -> int,
    st: SliceState,
)
    requires
        0 <= k <= paragraphs(text).len(),
        limit_inv(st, tok, text),
    ensures
        limit_inv(process_paras(paragraphs(text).skip(k), tok, st), tok, text),
    decreases paragraphs(text).len() - k,
{
    let paras = paragraphs(text);
    if k < paras.len() {
        let ps = paras.skip(k);
        assert(ps[0] == paras[k]);
        assert(ps.drop_first() =~= paras.skip(k + 1));
        let p = trim(paras[k]);
        lemma_tight_trim(paras[k]);
        let units = sub_units(p);
        assert forall|j: int| 0 <= j < units.len() implies is_unit_of(trim(#[trigger] units[j]), text) by {
            assert(sub_units(trim(paragraphs(text)[k]))[j] == units[j]);
        }
        if p.len() > 0 {
            if tok(p) > MAX_TOKENS {
                let st1 = if tok(st.0) >= MIN_TOKENS {
                    (Seq::<char>::empty(), st.1.push(st.0))
                } else {
                    st
                };
                assert forall|m: int| 0 <= m < st1.1.len() implies within_limit(
                    #[trigger] st1.1[m],
                    tok,
                    text,
                ) by {
                    if m < st.1.len() {
                        assert(st1.1[m] == st.1[m]);
                    }
                }
                lemma_process_units_limit(units, tok, st1, text);
            } else {
                lemma_try_append_limit(p, seq!['\n', '\n'], tok, st, text);
                lemma_process_units_limit(units, tok, st, text);
            }
        }
        lemma_process_paras_limit(text, k + 1, tok, para_step(paras[k], tok, st));
    } else {
        assert(paras.skip(k) =~= Seq::<Seq<char>>::empty());
    }
}

/// No slice goes over `MAX_TOKENS`, but a single unit of the text that is
/// over it alone (a sentence, or a list line of a paragraph that holds a
/// list), or an empty slice, which only a counter that gives an empty text
/// more than `MAX_TOKENS` tokens can produce.
pub proof fn law_slices_within_limit(text: Seq<char>, tok: spec_fn(Seq<char>) -> int)
    ensures
        forall|k: int|
            0 <= k < slices_of(text, tok).len() ==> within_limit(
                #[trigger] slices_of(text, tok)[k],
                tok,
                text,
            ),
{
    if text.len() > 0 && tok(text) > MAX_TOKENS {
        let st0 = (Seq::<char>::empty(), Seq::<Seq<char>>::empty());
        assert(paragraphs(text).skip(0) =~= paragraphs(text));
        lemma_process_paras_limit(text, 0, tok, st0);
        let st = process_paras(paragraphs(text), tok, st0);
        lemma_trim_tight(st.0);
        let r = finish(st);
        assert forall|k: int| 0 <= k < r.len() implies within_limit(#[trigger] r[k], tok, text) by {
            if k < st.1.len() {
                assert(r[k] == st.1[k]);
            }
        }
    }
}

/// The trimmed paragraphs `ps`, joined by blank lines.
pub open spec fn join_paras(ps: Seq<Seq<char>>) -> Seq<char>
    decreases ps.len(),
{
    if ps.len() == 0 {
        Seq::empty()
    } else {
        joined(join_paras(ps.drop_last()), seq!['\n', '\n'], ps.last())
    }
}

/// The first `k` paragraphs of `text`, trimmed.
pub open spec fn leading_paras(text: Seq<char>, k: int) -> Seq<Seq<char>> {
    paragraphs(text).take(k).map_values(|p: Seq<char>| trim(p))
}

/// The first slice is (or, with no slice done, the slice being filled is)
/// led by `lead`.
pub open spec fn led_by(st: SliceState, lead: Seq<char>) -> bool {
    ||| st.1.len() == 0 && starts_with(st.0, lead)
    ||| st.1.len() > 0 && starts_with(st.1[0], lead)
}

proof fn lemma_led_joined(cur: Seq<char>, sep: Seq<char>, item: Seq<char>, lead: Seq<char>)
    requires
        starts_with(cur, lead),
        lead.len() > 0,
    ensures
        starts_with(joined(cur, sep, item), lead),
{
    let j = cur + sep + item;
    assert(j.take(lead.len() as int) =~= cur.take(lead.len() as int));
}

proof fn lemma_led_try_append(item: Seq<char>, sep: Seq<char>, tok: spec_fn(Seq<char>) -> int, st: SliceState, lead: Seq<char>)
    requires
        led_by(st, lead),
        lead.len() > 0,
    ensures
        led_by(try_append_spec(item, sep, tok, st).1, lead),
{
    if st.1.len() == 0 {
        lemma_led_joined(st.0, sep, item, lead);
    }
    let r = try_append_spec(item, sep, tok, st).1;
    if r.1.len() > 0 {
        assert(r.1[0] == if st.1.len() == 0 { st.0 } else { st.1[0] });
    }
}

proof fn lemma_led_close(st: SliceState, lead: Seq<char>)
    requires
        led_by(st, lead),
        lead.len() > 0,
    ensures
        close(st).len() > 0 && starts_with(close(st)[0], lead),
{
    if st.1.len() == 0 {
        assert(st.0.len() > 0);
        assert(close(st)[0] == st.0);
    } else if st.0.len() > 0 {
        assert(close(st)[0] == st.1[0]);
    }
}

proof fn lemma_led_process_units(units: Seq<Seq<char>>, tok: spec_fn(Seq<char>) -> int, st: SliceState, lead: Seq<char>)
    requires
        led_by(st, lead),
        lead.len() > 0,
    ensures
        led_by(process_units(units, tok, st), lead),
    decreases units.len(),
{
    if units.len() > 0 {
        let u = trim(units[0]);
        if u.len() > 0 {
            lemma_led_try_append(u, seq!['\n'], tok, st, lead);
            lemma_led_close(st, lead);
        }
        lemma_led_process_units(units.drop_first(), tok, unit_step(units[0], tok, st), lead);
    }
}

proof fn lemma_led_process_paras(paras: Seq<Seq<char>>, tok: spec_fn(Seq<char>) -> int, st: SliceState, lead: Seq<char>)
    requires
        led_by(st, lead),
        lead.len() > 0,
    ensures
        led_by(process_paras(paras, tok, st), lead),
    decreases paras.len(),
{
    if paras.len() > 0 {
        let p = trim(paras[0]);
        if p.len() > 0 {
            let st1 = if tok(st.0) >= MIN_TOKENS {
                (Seq::<char>::empty(), st.1.push(st.0))
            } else {
                st
            };
            if tok(st.0) >= MIN_TOKENS {
                lemma_led_close(st, lead);
                if st.1.len() == 0 {
                    assert(st1.1[0] == st.0);
                } else {
                    assert(st1.1[0] == st.1[0]);
                }
            }
            lemma_led_process_units(sub_units(p), tok, st1, lead);
            lemma_led_try_append(p, seq!['\n', '\n'], tok, st, lead);
            lemma_led_process_units(sub_units(p), tok, st, lead);
        }
        lemma_led_process_paras(paras.drop_first(), tok, para_step(paras[0], tok, st), lead);
    }
}

proof fn lemma_leading_phase(text: Seq<char>, tok: spec_fn(Seq<char>) -> int, k: int, m: int)
    requires
        0 <= k <= m <= paragraphs(text).len(),
        forall|j: int| 0 <= j < m ==> trim(#[trigger] paragraphs(text)[j]).len() > 0
            && tok(trim(paragraphs(text)[j])) <= MAX_TOKENS,
        forall|j: int| 1 <= j <= m ==> tok(#[trigger] join_paras(leading_paras(text, j)))
            <= MAX_TOKENS,
    ensures
        process_paras(paragraphs(text), tok, (Seq::<char>::empty(), Seq::<Seq<char>>::empty()))
            == process_paras(
            paragraphs(text).skip(k),
            tok,
            (join_paras(leading_paras(text, k)), Seq::<Seq<char>>::empty()),
        ),
    decreases k,
{
    let ps = paragraphs(text);
    if k == 0 {
        assert(ps.skip(0) =~= ps);
        assert(leading_paras(text, 0) =~= Seq::<Seq<char>>::empty());
    } else {
        lemma_leading_phase(text, tok, k - 1, m);
        let jk1 = join_paras(leading_paras(text, k - 1));
        let p = trim(ps[k - 1]);
        assert(leading_paras(text, k).drop_last() =~= leading_paras(text, k - 1));
        assert(leading_paras(text, k).last() == p);
        assert(join_paras(leading_paras(text, k)) == joined(jk1, seq!['\n', '\n'], p));
        let sk = ps.skip(k - 1);
        assert(sk[0] == ps[k - 1]);
        assert(sk.drop_first() =~= ps.skip(k));
    }
}

proof fn lemma_join_paras_shape(ps: Seq<Seq<char>>)
    requires
        ps.len() > 0,
        forall|j: int| 0 <= j < ps.len() ==> (#[trigger] ps[j]).len() > 0 && tight(ps[j]),
    ensures
        join_paras(ps).len() > 0,
        starts_with(join_paras(ps), ps[0]),
        !is_ws(join_paras(ps).last()),
        !is_ws(join_paras(ps)[0]),
    decreases ps.len(),
{
    let init = ps.drop_last();
    if init.len() == 0 {
        assert(join_paras(init) =~= Seq::<char>::empty());
        assert(join_paras(ps) == ps.last());
        assert(ps.last() == ps[0]);
        assert(ps[0].take(ps[0].len() as int) =~= ps[0]);
    } else {
        lemma_join_paras_shape(init);
        let j = join_paras(init) + seq!['\n', '\n'] + ps.last();
        assert(init[0] == ps[0]);
        assert(j.take(ps[0].len() as int) =~= join_paras(init).take(ps[0].len() as int));
        assert(j[0] == join_paras(init)[0]);
        assert(j.last() == ps.last().last());
    }
}

proof fn lemma_starts_with_trim_end(s: Seq<char>, lead: Seq<char>)
    requires
        starts_with(s, lead),
        lead.len() > 0,
        !is_ws(lead.last()),
    ensures
        starts_with(trim_end(s), lead),
    decreases s.len(),
{
    if s.len() > 0 && is_ws(s.last()) {
        if s.len() == lead.len() {
            assert(s.take(lead.len() as int) =~= s);
            assert(s.last() == lead.last());
        }
        let t = s.drop_last();
        assert(t.take(lead.len() as int) =~= s.take(lead.len() as int));
        lemma_starts_with_trim_end(t, lead);
    }
}

/// The leading paragraphs of a text stay together in its first slice: where
/// the first `m` paragraphs are not blank and fit, each and joined one after
/// the other, in `MAX_TOKENS`, the first slice starts with them, joined by
/// blank lines. (A section's chunks start with its heading path in this way:
/// its heading lines are its leading paragraphs.)
pub proof fn law_first_slice_keeps_leading_paragraphs(text: Seq<char>, tok: spec_fn(Seq<char>) -> int, m: int)
    requires
        1 <= m <= paragraphs(text).len(),
        tok(text) > MAX_TOKENS,
        forall|j: int| 0 <= j < m ==> trim(#[trigger] paragraphs(text)[j]).len() > 0
            && tok(trim(paragraphs(text)[j])) <= MAX_TOKENS,
        forall|j: int| 1 <= j <= m ==> tok(#[trigger] join_paras(leading_paras(text, j)))
            <= MAX_TOKENS,
    ensures
        slices_of(text, tok).len() > 0,
        starts_with(slices_of(text, tok)[0], join_paras(leading_paras(text, m))),
{
    let ps = paragraphs(text);
    let lead = join_paras(leading_paras(text, m));
    let lp = leading_paras(text, m);
    assert forall|j: int| 0 <= j < lp.len() implies (#[trigger] lp[j]).len() > 0 && tight(lp[j]) by {
        assert(lp[j] == trim(ps[j]));
        lemma_tight_trim(ps[j]);
    }
    lemma_join_paras_shape(lp);
    lemma_leading_phase(text, tok, m, m);
    assert(lead.take(lead.len() as int) =~= lead);
    let st_m = (lead, Seq::<Seq<char>>::empty());
    assert(led_by(st_m, lead));
    lemma_led_process_paras(ps.skip(m), tok, st_m, lead);
    let st = process_paras(ps, tok, (Seq::<char>::empty(), Seq::<Seq<char>>::empty()));
    assert(text.len() > 0) by {
        if text.len() == 0 {
            assert(paragraphs(text).len() == 1);
            assert(paragraphs(text)[0] =~= Seq::<char>::empty());
            assert(trim(Seq::<char>::empty()) =~= Seq::<char>::empty());
        }
    }
    if st.1.len() == 0 {
        lemma_starts_with_trim_end(st.0, lead);
        assert(trim_start(st.0) == st.0) by {
            assert(st.0.take(lead.len() as int)[0] == lead[0]);
        }
        assert(trim(st.0).take(lead.len() as int) == lead);
        assert(finish(st)[0] == trim(st.0));
    } else {
        assert(finish(st)[0] == st.1[0]);
    }
}

/// The slice `s` could not take the next unit: some non-empty unit `u`,
/// with no whitespace at either end, leads `next`, the slice after it, and
/// `s` joined with `u` by a line feed is over `MAX_TOKENS`.
pub open spec fn blocked(s: Seq<char>, next: Seq<char>, tok: spec_fn(Seq<char>) -> int) -> bool {
    exists|u: Seq<char>|
        #[trigger] starts_with(next, u) && u.len() > 0 && tight(u) && tok(
            joined(s, seq!['\n'], u),
        ) > MAX_TOKENS
}

/// The slice after slice `i` of `st`: the next one done, or the one being
/// filled.
pub open spec fn next_of(st: SliceState, i: int) -> Seq<char> {
    if i + 1 < st.1.len() {
        st.1[i + 1]
    } else {
        st.0
    }
}

/// Every slice done was closed full, or because the next unit could not
/// join it.
pub open spec fn flush_inv(st: SliceState, tok: spec_fn(Seq<char>) -> int) -> bool {
    forall|i: int|
        0 <= i < st.1.len() ==> tok(#[trigger] st.1[i]) >= MIN_TOKENS || blocked(
            st.1[i],
            next_of(st, i),
            tok,
        )
}

proof fn lemma_blocked_moves(s: Seq<char>, a: Seq<char>, b: Seq<char>, tok: spec_fn(Seq<char>) -> int)
    requires
        blocked(s, a, tok),
        forall|u: Seq<char>| u.len() > 0 && starts_with(a, u) ==> #[trigger] starts_with(b, u),
    ensures
        blocked(s, b, tok),
{
    let u = choose|u: Seq<char>|
        #[trigger] starts_with(a, u) && u.len() > 0 && tight(u) && tok(joined(s, seq!['\n'], u))
            > MAX_TOKENS;
    assert(starts_with(b, u));
}

proof fn lemma_flush_inv_join(st: SliceState, sep: Seq<char>, item: Seq<char>, tok: spec_fn(Seq<char>) -> int)
    requires
        flush_inv(st, tok),
    ensures
        flush_inv((joined(st.0, sep, item), st.1), tok),
{
    let r = (joined(st.0, sep, item), st.1);
    assert forall|i: int| 0 <= i < r.1.len() implies tok(#[trigger] r.1[i]) >= MIN_TOKENS
        || blocked(r.1[i], next_of(r, i), tok) by {
        if i + 1 == st.1.len() && tok(st.1[i]) < MIN_TOKENS {
            assert forall|u: Seq<char>| u.len() > 0 && starts_with(st.0, u) implies #[trigger] starts_with(
                r.0,
                u,
            ) by {
                lemma_led_joined(st.0, sep, item, u);
            }
            lemma_blocked_moves(st.1[i], st.0, r.0, tok);
        }
    }
}

proof fn lemma_flush_inv_push(st: SliceState, item: Seq<char>, tok: spec_fn(Seq<char>) -> int)
    requires
        flush_inv(st, tok),
        tok(st.0) >= MIN_TOKENS || blocked(st.0, item, tok),
    ensures
        flush_inv((item, st.1.push(st.0)), tok),
{
    let r = (item, st.1.push(st.0));
    assert forall|i: int| 0 <= i < r.1.len() implies tok(#[trigger] r.1[i]) >= MIN_TOKENS
        || blocked(r.1[i], next_of(r, i), tok) by {
        if i < st.1.len() {
            assert(r.1[i] == st.1[i]);
            assert(next_of(r, i) == next_of(st, i));
        }
    }
}

proof fn lemma_flush_inv_try(item: Seq<char>, sep: Seq<char>, tok: spec_fn(Seq<char>) -> int, st: SliceState)
    requires
        flush_inv(st, tok),
    ensures
        flush_inv(try_append_spec(item, sep, tok, st).1, tok),
{
    lemma_flush_inv_join(st, sep, item, tok);
    if tok(st.0) >= MIN_TOKENS {
        lemma_flush_inv_push(st, item, tok);
    }
}

proof fn lemma_flush_inv_units(units: Seq<Seq<char>>, tok: spec_fn(Seq<char>) -> int, st: SliceState)
    requires
        flush_inv(st, tok),
    ensures
        flush_inv(process_units(units, tok, st), tok),
    decreases units.len(),
{
    if units.len() > 0 {
        let u = trim(units[0]);
        if u.len() > 0 {
            lemma_flush_inv_try(u, seq!['\n'], tok, st);
            let (ok, _) = try_append_spec(u, seq!['\n'], tok, st);
            if !ok {
                lemma_tight_trim(units[0]);
                if st.0.len() > 0 {
                    assert(u.take(u.len() as int) =~= u);
                    assert(starts_with(u, u));
                    assert(blocked(st.0, u, tok));
                    lemma_flush_inv_push(st, u, tok);
                } else {
                    let r = (u, st.1);
                    assert forall|i: int| 0 <= i < r.1.len() implies tok(#[trigger] r.1[i])
                        >= MIN_TOKENS || blocked(r.1[i], next_of(r, i), tok) by {
                        if i + 1 == st.1.len() && tok(st.1[i]) < MIN_TOKENS {
                            let w = choose|w: Seq<char>|
                                #[trigger] starts_with(st.0, w) && w.len() > 0 && tight(w) && tok(
                                    joined(st.1[i], seq!['\n'], w),
                                ) > MAX_TOKENS;
                            assert(false);
                        }
                    }
                }
            }
        }
        lemma_flush_inv_units(units.drop_first(), tok, unit_step(units[0], tok, st));
    }
}

proof fn lemma_flush_inv_paras(paras: Seq<Seq<char>>, tok: spec_fn(Seq<char>) -> int, st: SliceState)
    requires
        flush_inv(st, tok),
    ensures
        flush_inv(process_paras(paras, tok, st), tok),
    decreases paras.len(),
{
    if paras.len() > 0 {
        let p = trim(paras[0]);
        if p.len() > 0 {
            if tok(st.0) >= MIN_TOKENS {
                lemma_flush_inv_push(st, Seq::<char>::empty(), tok);
                lemma_flush_inv_units(sub_units(p), tok, (Seq::<char>::empty(), st.1.push(st.0)));
            }
            lemma_flush_inv_units(sub_units(p), tok, st);
            lemma_flush_inv_try(p, seq!['\n', '\n'], tok, st);
        }
        lemma_flush_inv_paras(paras.drop_first(), tok, para_step(paras[0], tok, st));
    }
}

/// Slices close when full: every slice but the last holds at least
/// `MIN_TOKENS` tokens, unless it was closed because the next unit could
/// not join it (the unit leads the next slice, and the two, joined by a
/// line feed, are over `MAX_TOKENS`).
pub proof fn law_slices_close_when_full(text: Seq<char>, tok: spec_fn(Seq<char>) -> int)
    ensures
        forall|i: int|
            0 <= i < slices_of(text, tok).len() - 1 ==> tok(#[trigger] slices_of(text, tok)[i])
                >= MIN_TOKENS || blocked(slices_of(text, tok)[i], slices_of(text, tok)[i + 1], tok),
{
    if text.len() > 0 && tok(text) > MAX_TOKENS {
        let st0 = (Seq::<char>::empty(), Seq::<Seq<char>>::empty());
        lemma_flush_inv_paras(paragraphs(text), tok, st0);
        let st = process_paras(paragraphs(text), tok, st0);
        let r = finish(st);
        assert forall|i: int| 0 <= i < r.len() - 1 implies tok(#[trigger] r[i]) >= MIN_TOKENS
            || blocked(r[i], r[i + 1], tok) by {
            assert(r[i] == st.1[i]);
            if i + 1 < st.1.len() {
                assert(r[i + 1] == st.1[i + 1]);
            } else if tok(st.1[i]) < MIN_TOKENS {
                assert(r[i + 1] == trim(st.0));
                assert forall|u: Seq<char>| u.len() > 0 && starts_with(st.0, u) && tight(u) implies #[trigger] starts_with(
                    trim(st.0),
                    u,
                ) by {
                    assert(st.0.take(u.len() as int)[0] == u[0]);
                    assert(trim_start(st.0) == st.0);
                    lemma_starts_with_trim_end(st.0, u);
                }
                let w = choose|w: Seq<char>|
                    #[trigger] starts_with(st.0, w) && w.len() > 0 && tight(w) && tok(
                        joined(st.1[i], seq!['\n'], w),
                    ) > MAX_TOKENS;
                assert(starts_with(trim(st.0), w));
            }
        }
    }
}

proof fn lemma_flatten_singletons(xs: Seq<Seq<char>>)
    ensures
        xs.map_values(|l: Seq<char>| seq![l]).flatten() == xs,
    decreases xs.len(),
{
    if xs.len() > 0 {
        let f = |l: Seq<char>| seq![l];
        lemma_flatten_singletons(xs.drop_first());
        assert(xs.map_values(f).drop_first() =~= xs.drop_first().map_values(f));
        assert(xs.map_values(f).first() == seq![xs[0]]);
        assert(xs =~= seq![xs[0]] + xs.drop_first());
    } else {
        assert(xs.map_values(|l: Seq<char>| seq![l]) =~= Seq::<Seq<Seq<char>>>::empty());
        assert(xs =~= Seq::<Seq<char>>::empty());
    }
}

/// A bulleted list is cut line by line: where every line of a paragraph,
/// once trimmed, starts with a bullet `* `, `- ` or `+ `, its units are its
/// lines, each whole, whatever sentence ends they hold.
pub proof fn law_bulleted_list_is_cut_by_lines(text: Seq<char>)
    requires
        lines(text).len() > 0,
        forall|i: int|
            0 <= i < lines(text).len() ==> {
                let t = trim(#[trigger] lines(text)[i]);
                &&& t.len() >= 2
                &&& t[0] == '*' || t[0] == '-' || t[0] == '+'
                &&& t[1] == ' '
            },
    ensures
        sub_units(text) == lines(text),
{
    let ls = lines(text);
    assert forall|i: int| 0 <= i < ls.len() implies #[trigger] is_list_line(ls[i]) by {
        let t = trim(ls[i]);
        assert(t.take(2) =~= seq![t[0], ' ']);
        if t[0] == '*' {
            assert(starts_with(t, seq!['*', ' ']));
        } else if t[0] == '-' {
            assert(starts_with(t, seq!['-', ' ']));
        } else {
            assert(starts_with(t, seq!['+', ' ']));
        }
    }
    assert(is_list_line(ls[0]));
    assert(ls.map_values(|l: Seq<char>| line_units(l)) =~= ls.map_values(|l: Seq<char>| seq![l]));
    lemma_flatten_singletons(ls);
}

/// Prose is cut by sentences: where no line of a paragraph, once trimmed,
/// starts with `*`, `-`, `+` or an ASCII digit, its units are its
/// sentences, whatever its line breaks.
pub proof fn law_prose_is_cut_by_sentences(text: Seq<char>)
    requires
        forall|i: int|
            0 <= i < lines(text).len() ==> {
                let t = trim(#[trigger] lines(text)[i]);
                t.len() > 0 ==> t[0] != '*' && t[0] != '-' && t[0] != '+' && !('0' <= t[0] && t[0] <= '9')
            },
    ensures
        sub_units(text) == sentences(text),
{
    let ls = lines(text);
    assert forall|i: int| 0 <= i < ls.len() implies !#[trigger] is_list_line(ls[i]) by {
        let t = trim(ls[i]);
        if t.len() > 0 {
            assert(digits_end(t, 0) == 0);
        }
        if t.len() == 0 {
            assert(digits_end(t, 0) == 0);
        }
    }
}

/// `t` starts with `k` ASCII digits, from one to nine, then `.` or `)`,
/// then a space, a tab or its end.
pub open spec fn numbered(t: Seq<char>, k: int) -> bool {
    &&& 1 <= k <= 9
    &&& k < t.len()
    &&& forall|j: int| 0 <= j < k ==> '0' <= #[trigger] t[j] && t[j] <= '9'
    &&& t[k] == '.' || t[k] == ')'
    &&& k + 1 == t.len() || t[k + 1] == ' ' || t[k + 1] == '\t'
}

proof fn lemma_digits_end_at(t: Seq<char>, i: int, k: int)
    requires
        0 <= i <= k < t.len(),
        forall|j: int| i <= j < k ==> is_ascii_digit(#[trigger] t[j]),
        !is_ascii_digit(t[k]),
    ensures
        digits_end(t, i) == k,
    decreases k - i,
{
    if i < k {
        lemma_digits_end_at(t, i + 1, k);
    }
}

/// An ordered list is cut line by line too: where every line of a
/// paragraph, once trimmed, starts with one to nine ASCII digits, then `.`
/// or `)`, then a space, a tab or the end of the line, its units are its
/// lines, each whole.
pub proof fn law_ordered_list_is_cut_by_lines(text: Seq<char>)
    requires
        lines(text).len() > 0,
        forall|i: int|
            #![trigger lines(text)[i]]
            0 <= i < lines(text).len() ==> exists|k: int| #[trigger] numbered(trim(lines(text)[i]), k),
    ensures
        sub_units(text) == lines(text),
{
    let ls = lines(text);
    assert forall|i: int| 0 <= i < ls.len() implies #[trigger] is_list_line(ls[i]) by {
        let t = trim(ls[i]);
        assert(exists|k: int| numbered(t, k));
        let k = choose|k: int| numbered(t, k);
        assert forall|j: int| 0 <= j < k implies is_ascii_digit(#[trigger] t[j]) by {}
        lemma_digits_end_at(t, 0, k);
        assert(is_ordered_marker(t));
    }
    assert(is_list_line(ls[0]));
    assert(ls.map_values(|l: Seq<char>| line_units(l)) =~= ls.map_values(|l: Seq<char>| seq![l]));
    lemma_flatten_singletons(ls);
}

} // verus!
