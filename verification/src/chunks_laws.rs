//! Properties of the chunks that `node_chunks` describes.

use vstd::prelude::*;
use crate::tokens::MAX_TOKENS;
use crate::tree::NodeModel;
use crate::chunks::{
    node_chunks, forest_chunks, node_texts, forest_texts, own_texts, own_chunks, path_prefix,
    heading_line,
};
use crate::text::{
    trim, trim_start, trim_end, is_ws, paragraphs, first_blank_sep, blank_sep_at,
    lemma_first_blank_sep,
};
use crate::slicing::{slices_of, joined, starts_with};
use crate::slicing_laws::{
    law_fitting_text_is_one_slice, law_first_slice_keeps_leading_paragraphs, join_paras,
    leading_paras, tight, lemma_trim_tight, law_slices_within_limit, within_limit, is_unit_of,
};

verus! {

/// Every text of `texts` fits in `MAX_TOKENS`.
pub open spec fn all_fit(texts: Seq<Seq<char>>, tok: spec_fn(Seq<char>) -> int) -> bool {
    forall|k: int| 0 <= k < texts.len() ==> tok(#[trigger] texts[k]) <= MAX_TOKENS
}

proof fn lemma_all_fit_split(a: Seq<Seq<char>>, b: Seq<Seq<char>>, tok: spec_fn(Seq<char>) -> int)
    requires
        all_fit(a + b, tok),
    ensures
        all_fit(a, tok),
        all_fit(b, tok),
{
    assert forall|k: int| 0 <= k < a.len() implies tok(#[trigger] a[k]) <= MAX_TOKENS by {
        assert((a + b)[k] == a[k]);
    }
    assert forall|k: int| 0 <= k < b.len() implies tok(#[trigger] b[k]) <= MAX_TOKENS by {
        assert((a + b)[a.len() + k] == b[k]);
    }
}

/// Where every section of a subtree fits in `MAX_TOKENS` behind its heading
/// path, the subtree gives exactly one chunk per section that is not blank,
/// in pre-order: the section behind its heading path.
pub proof fn law_one_chunk_per_section(n: NodeModel, path: Seq<(u32, Seq<char>)>, tok: spec_fn(Seq<char>) -> int)
    requires
        all_fit(node_texts(n, path), tok),
    ensures
        node_chunks(n, path, tok) == node_texts(n, path),
    decreases n,
{
    let child_path = path.push((n.depth, n.title));
    lemma_all_fit_split(own_texts(n, path), forest_texts(n.children, child_path), tok);
    if own_texts(n, path).len() > 0 {
        let t = path_prefix(path) + n.content->0;
        assert(own_texts(n, path)[0] == t);
        law_fitting_text_is_one_slice(t, tok);
    }
    lemma_forest_one_chunk(n.children, child_path, tok);
}

proof fn lemma_forest_one_chunk(ns: Seq<NodeModel>, path: Seq<(u32, Seq<char>)>, tok: spec_fn(Seq<char>) -> int)
    requires
        all_fit(forest_texts(ns, path), tok),
    ensures
        forest_chunks(ns, path, tok) == forest_texts(ns, path),
    decreases ns,
{
    if ns.len() > 0 {
        let init = ns.subrange(0, ns.len() - 1);
        lemma_all_fit_split(forest_texts(init, path), node_texts(ns[ns.len() - 1], path), tok);
        lemma_forest_one_chunk(init, path, tok);
        law_one_chunk_per_section(ns[ns.len() - 1], path, tok);
    }
}

/// A heading line without its blank line: the `#` marks, a space, the title.
pub open spec fn heading_text(depth: u32, title: Seq<char>) -> Seq<char> {
    let level: nat = if depth == 0 {
        1
    } else {
        depth as nat
    };
    Seq::new(level, |i: int| '#') + seq![' '] + title
}

/// The heading texts of a path, one per element.
pub open spec fn heading_texts(path: Seq<(u32, Seq<char>)>) -> Seq<Seq<char>> {
    path.map_values(|e: (u32, Seq<char>)| heading_text(e.0, e.1))
}

/// A title that keeps its heading on one line: not empty, no line feed,
/// and no whitespace at either end.
pub open spec fn clean_title(t: Seq<char>) -> bool {
    &&& t.len() > 0
    &&& tight(t)
    &&& forall|i: int| 0 <= i < t.len() ==> #[trigger] t[i] != '\n'
}

proof fn lemma_heading_line(depth: u32, title: Seq<char>)
    ensures
        heading_line(depth, title) == heading_text(depth, title) + seq!['\n', '\n'],
{
    assert(heading_line(depth, title) =~= heading_text(depth, title) + seq!['\n', '\n']);
}

proof fn lemma_heading_text_clean(depth: u32, title: Seq<char>)
    requires
        clean_title(title),
    ensures
        tight(heading_text(depth, title)),
        heading_text(depth, title).len() > 0,
        forall|i: int| 0 <= i < heading_text(depth, title).len() ==> #[trigger] heading_text(
            depth,
            title,
        )[i] != '\n',
        trim(heading_text(depth, title)) == heading_text(depth, title),
{
    let h = heading_text(depth, title);
    let level: nat = if depth == 0 {
        1
    } else {
        depth as nat
    };
    assert(h[0] == '#');
    assert(h.last() == title.last());
    assert forall|i: int| 0 <= i < h.len() implies #[trigger] h[i] != '\n' by {
        if i >= level + 1 {
            assert(h[i] == title[i - level - 1]);
        }
    }
    lemma_trim_tight(h);
}

proof fn lemma_first_blank_sep_after(a: Seq<char>, b: Seq<char>, i: int)
    requires
        0 <= i <= a.len(),
        forall|k: int| 0 <= k < a.len() ==> #[trigger] a[k] != '\n',
    ensures
        first_blank_sep(a + seq!['\n', '\n'] + b, i) == a.len(),
    decreases a.len() - i,
{
    let s = a + seq!['\n', '\n'] + b;
    if i < a.len() {
        assert(s[i] == a[i]);
        lemma_first_blank_sep_after(a, b, i + 1);
    } else {
        assert(s[i] == '\n' && s[i + 1] == '\n');
    }
}

/// A line without line feeds, then a blank line: the line is the first
/// paragraph.
proof fn lemma_paragraphs_after_line(a: Seq<char>, b: Seq<char>)
    requires
        forall|k: int| 0 <= k < a.len() ==> #[trigger] a[k] != '\n',
    ensures
        paragraphs(a + seq!['\n', '\n'] + b) == seq![a] + paragraphs(b),
{
    let s = a + seq!['\n', '\n'] + b;
    lemma_first_blank_sep_after(a, b, 0);
    assert(s.take(a.len() as int) =~= a);
    assert(s.skip(a.len() as int + 2) =~= b);
}

proof fn lemma_path_prefix_front(path: Seq<(u32, Seq<char>)>)
    requires
        path.len() > 0,
    ensures
        path_prefix(path) == heading_line(path[0].0, path[0].1) + path_prefix(path.drop_first()),
    decreases path.len(),
{
    if path.len() == 1 {
        assert(path.drop_last() =~= Seq::<(u32, Seq<char>)>::empty());
        assert(path.drop_first() =~= Seq::<(u32, Seq<char>)>::empty());
        assert(path_prefix(path) =~= heading_line(path[0].0, path[0].1) + path_prefix(
            path.drop_first(),
        ));
    } else {
        let init = path.drop_last();
        lemma_path_prefix_front(init);
        assert(init[0] == path[0]);
        assert(init.drop_first() =~= path.drop_first().drop_last());
        assert(path.drop_first().last() == path.last());
        assert(path_prefix(path) =~= heading_line(path[0].0, path[0].1) + path_prefix(
            path.drop_first(),
        ));
    }
}

/// Behind a path of clean titles, the heading lines are the leading
/// paragraphs.
proof fn lemma_paragraphs_behind_path(path: Seq<(u32, Seq<char>)>, c: Seq<char>)
    requires
        forall|i: int| 0 <= i < path.len() ==> clean_title(#[trigger] path[i].1),
    ensures
        paragraphs(path_prefix(path) + c) == heading_texts(path) + paragraphs(c),
    decreases path.len(),
{
    if path.len() == 0 {
        assert(path_prefix(path) + c =~= c);
        assert(heading_texts(path) + paragraphs(c) =~= paragraphs(c));
    } else {
        let rest = path.drop_first();
        assert forall|i: int| 0 <= i < rest.len() implies clean_title(#[trigger] rest[i].1) by {
            assert(rest[i] == path[i + 1]);
        }
        lemma_paragraphs_behind_path(rest, c);
        lemma_path_prefix_front(path);
        let h = heading_text(path[0].0, path[0].1);
        lemma_heading_line(path[0].0, path[0].1);
        lemma_heading_text_clean(path[0].0, path[0].1);
        assert(path_prefix(path) + c =~= h + seq!['\n', '\n'] + (path_prefix(rest) + c));
        lemma_paragraphs_after_line(h, path_prefix(rest) + c);
        assert(heading_texts(path) =~= seq![h] + heading_texts(rest));
        assert(heading_texts(path) + paragraphs(c) =~= seq![h] + (heading_texts(rest) + paragraphs(
            c,
        )));
    }
}

proof fn lemma_join_heading_texts(path: Seq<(u32, Seq<char>)>)
    requires
        path.len() > 0,
        forall|i: int| 0 <= i < path.len() ==> clean_title(#[trigger] path[i].1),
    ensures
        join_paras(heading_texts(path)) + seq!['\n', '\n'] == path_prefix(path),
        join_paras(heading_texts(path)).len() > 0,
    decreases path.len(),
{
    let init = path.drop_last();
    let hs = heading_texts(path);
    assert(hs.drop_last() =~= heading_texts(init));
    assert(hs.last() == heading_text(path.last().0, path.last().1));
    lemma_heading_line(path.last().0, path.last().1);
    lemma_heading_text_clean(path.last().0, path.last().1);
    if init.len() == 0 {
        assert(heading_texts(init) =~= Seq::<Seq<char>>::empty());
        assert(path_prefix(init) =~= Seq::<char>::empty());
    } else {
        assert forall|i: int| 0 <= i < init.len() implies clean_title(#[trigger] init[i].1) by {
            assert(init[i] == path[i]);
        }
        lemma_join_heading_texts(init);
    }
    assert(join_paras(hs) == joined(join_paras(heading_texts(init)), seq!['\n', '\n'], hs.last()));
    assert(path_prefix(path) == path_prefix(init) + heading_line(path.last().0, path.last().1));
    assert(join_paras(hs) + seq!['\n', '\n'] =~= path_prefix(path));
}

/// The texts that lead `path_prefix(path) + c` once cut at blank lines: the
/// heading lines, then the first paragraph of `c`, trimmed.
pub open spec fn leading_fit(text: Seq<char>, m: int, tok: spec_fn(Seq<char>) -> int) -> bool {
    &&& forall|j: int| 0 <= j < m ==> tok(trim(#[trigger] paragraphs(text)[j])) <= MAX_TOKENS
    &&& forall|j: int| 1 <= j <= m ==> tok(#[trigger] join_paras(leading_paras(text, j))) <= MAX_TOKENS
}

/// A section keeps its document context: where the titles on its heading
/// path are clean, its content `c` does not start with whitespace, and its
/// heading lines and the first paragraph `h` of its content fit in
/// `MAX_TOKENS`, one by one and joined from the first, its first chunk
/// starts with its heading path and then `h`.
pub proof fn law_first_chunk_starts_with_heading_path(
    n: NodeModel,
    path: Seq<(u32, Seq<char>)>,
    tok: spec_fn(Seq<char>) -> int,
)
    requires
        n.content is Some,
        trim(n.content->0).len() > 0,
        !is_ws(n.content->0[0]),
        forall|i: int| 0 <= i < path.len() ==> clean_title(#[trigger] path[i].1),
        leading_fit(path_prefix(path) + n.content->0, path.len() as int + 1, tok),
    ensures
        own_chunks(n, path, tok).len() > 0,
        starts_with(
            own_chunks(n, path, tok)[0],
            path_prefix(path) + trim(paragraphs(n.content->0)[0]),
        ),
{
    let c = n.content->0;
    let text = path_prefix(path) + c;
    let k = path.len() as int;
    lemma_paragraphs_behind_path(path, c);
    let ps = paragraphs(text);
    let pc = paragraphs(c);
    lemma_paragraphs_nonempty(c);
    let h = trim(pc[0]);
    assert(ps[k] == pc[0]);
    let lp = leading_paras(text, k + 1);
    assert forall|j: int| 0 <= j < k implies #[trigger] lp[j] == heading_text(path[j].0, path[j].1) by {
        lemma_heading_text_clean(path[j].0, path[j].1);
        assert(ps[j] == heading_texts(path)[j]);
    }
    assert(lp.drop_last() =~= heading_texts(path)) by {
        assert forall|j: int| 0 <= j < k implies lp.drop_last()[j] == heading_texts(path)[j] by {
            lemma_heading_text_clean(path[j].0, path[j].1);
            assert(ps[j] == heading_texts(path)[j]);
        }
    }
    assert(lp.last() == h);
    let lead = path_prefix(path) + h;
    lemma_first_para_leads(c);
    assert(h.len() > 0);
    if k == 0 {
        assert(heading_texts(path) =~= Seq::<Seq<char>>::empty());
        assert(path_prefix(path) =~= Seq::<char>::empty());
        assert(join_paras(lp) == joined(Seq::<char>::empty(), seq!['\n', '\n'], h));
        assert(join_paras(lp) =~= lead);
    } else {
        lemma_join_heading_texts(path);
        assert(join_paras(lp) == joined(join_paras(heading_texts(path)), seq!['\n', '\n'], h));
        assert(join_paras(lp) =~= lead);
    }
    assert(text.len() > 0);
    if tok(text) <= MAX_TOKENS {
        assert(own_chunks(n, path, tok) == slices_of(text, tok));
        law_fitting_text_is_one_slice(text, tok);
        assert(text.take(lead.len() as int) =~= path_prefix(path) + c.take(h.len() as int));
    } else {
        assert forall|j: int| 0 <= j < k + 1 implies trim(#[trigger] ps[j]).len() > 0 by {
            if j < k {
                lemma_heading_text_clean(path[j].0, path[j].1);
                assert(ps[j] == heading_texts(path)[j]);
            }
        }
        law_first_slice_keeps_leading_paragraphs(text, tok, k + 1);
    }
}

proof fn lemma_paragraphs_nonempty(s: Seq<char>)
    ensures
        paragraphs(s).len() > 0,
        paragraphs(s)[0] == s.take(first_blank_sep(s, 0)) || paragraphs(s)[0] == s,
{
}

proof fn lemma_trim_end_prefix(s: Seq<char>)
    ensures
        trim_end(s).len() <= s.len(),
        trim_end(s) == s.take(trim_end(s).len() as int),
        s.len() > 0 && !is_ws(s[0]) ==> trim_end(s).len() > 0,
    decreases s.len(),
{
    if s.len() > 0 && is_ws(s.last()) {
        lemma_trim_end_prefix(s.drop_last());
        let t = trim_end(s.drop_last());
        assert(s.take(t.len() as int) =~= s.drop_last().take(t.len() as int));
        if s.len() > 0 && !is_ws(s[0]) && s.drop_last().len() == 0 {
            assert(s.last() == s[0]);
        }
        if s.drop_last().len() > 0 {
            assert(s.drop_last()[0] == s[0]);
        }
    } else {
        assert(s.take(s.len() as int) =~= s);
    }
}

/// The first paragraph of a text that does not start with whitespace,
/// trimmed, is not empty and leads the text.
proof fn lemma_first_para_leads(c: Seq<char>)
    requires
        c.len() > 0,
        !is_ws(c[0]),
    ensures
        trim(paragraphs(c)[0]).len() > 0,
        trim(paragraphs(c)[0]).len() <= c.len(),
        c.take(trim(paragraphs(c)[0]).len() as int) == trim(paragraphs(c)[0]),
{
    lemma_paragraphs_nonempty(c);
    let p0 = paragraphs(c)[0];
    let j = first_blank_sep(c, 0);
    if 0 <= j && j + 2 <= c.len() {
        if j == 0 {
            assert(blank_sep_at(c, 0)) by {
                lemma_first_blank_sep_is_sep(c);
            }
            assert(false);
        }
        assert(p0 == c.take(j));
    } else {
        assert(p0 == c);
    }
    assert(p0.len() > 0 && p0[0] == c[0]);
    assert(trim_start(p0) == p0);
    lemma_trim_end_prefix(p0);
    let h = trim(p0);
    assert(c.take(h.len() as int) =~= p0.take(h.len() as int));
}

proof fn lemma_first_blank_sep_is_sep(s: Seq<char>)
    requires
        first_blank_sep(s, 0) == 0,
        s.len() >= 2,
    ensures
        blank_sep_at(s, 0),
{
    lemma_first_blank_sep(s, 0);
}

/// Every unit (sentence, or list line of a paragraph that holds a list) of
/// every text of `texts` fits in `MAX_TOKENS`, and so does the empty text.
pub open spec fn units_fit(texts: Seq<Seq<char>>, tok: spec_fn(Seq<char>) -> int) -> bool {
    &&& tok(Seq::<char>::empty()) <= MAX_TOKENS
    &&& forall|k: int, s: Seq<char>|
        0 <= k < texts.len() && #[trigger] is_unit_of(s, texts[k]) ==> tok(s) <= MAX_TOKENS
}

proof fn lemma_units_fit_split(a: Seq<Seq<char>>, b: Seq<Seq<char>>, tok: spec_fn(Seq<char>) -> int)
    requires
        units_fit(a + b, tok),
    ensures
        units_fit(a, tok),
        units_fit(b, tok),
{
    assert forall|k: int, s: Seq<char>| 0 <= k < a.len() && #[trigger] is_unit_of(s, a[k]) implies tok(s)
        <= MAX_TOKENS by {
        assert((a + b)[k] == a[k]);
    }
    assert forall|k: int, s: Seq<char>| 0 <= k < b.len() && #[trigger] is_unit_of(s, b[k]) implies tok(s)
        <= MAX_TOKENS by {
        assert((a + b)[a.len() + k] == b[k]);
    }
}

proof fn lemma_all_within(a: Seq<Seq<char>>, b: Seq<Seq<char>>, tok: spec_fn(Seq<char>) -> int)
    requires
        forall|k: int| 0 <= k < a.len() ==> tok(#[trigger] a[k]) <= MAX_TOKENS,
        forall|k: int| 0 <= k < b.len() ==> tok(#[trigger] b[k]) <= MAX_TOKENS,
    ensures
        forall|k: int| 0 <= k < (a + b).len() ==> tok(#[trigger] (a + b)[k]) <= MAX_TOKENS,
{
    assert forall|k: int| 0 <= k < (a + b).len() implies tok(#[trigger] (a + b)[k]) <= MAX_TOKENS by {
        if k < a.len() {
            assert((a + b)[k] == a[k]);
        } else {
            assert((a + b)[k] == b[k - a.len()]);
        }
    }
}

/// Chunks are bounded by `MAX_TOKENS`: where every sentence and list line of
/// every section behind its heading path (the heading lines among them)
/// fits, every chunk of the subtree fits.
pub proof fn law_chunks_within_limit(n: NodeModel, path: Seq<(u32, Seq<char>)>, tok: spec_fn(Seq<char>) -> int)
    requires
        units_fit(node_texts(n, path), tok),
    ensures
        forall|k: int|
            0 <= k < node_chunks(n, path, tok).len() ==> tok(#[trigger] node_chunks(n, path, tok)[k])
                <= MAX_TOKENS,
    decreases n,
{
    let child_path = path.push((n.depth, n.title));
    let own = own_texts(n, path);
    lemma_units_fit_split(own, forest_texts(n.children, child_path), tok);
    let oc = own_chunks(n, path, tok);
    if own.len() > 0 {
        let t = path_prefix(path) + n.content->0;
        assert(own[0] == t);
        law_slices_within_limit(t, tok);
        assert forall|k: int| 0 <= k < oc.len() implies tok(#[trigger] oc[k]) <= MAX_TOKENS by {
            assert(within_limit(slices_of(t, tok)[k], tok, t));
            if oc[k].len() == 0 {
                assert(oc[k] =~= Seq::<char>::empty());
            }
            if is_unit_of(oc[k], own[0]) {
                assert(tok(oc[k]) <= MAX_TOKENS);
            }
        }
    } else {
        assert(oc.len() == 0);
    }
    lemma_forest_within_limit(n.children, child_path, tok);
    lemma_all_within(oc, forest_chunks(n.children, child_path, tok), tok);
}

proof fn lemma_forest_within_limit(ns: Seq<NodeModel>, path: Seq<(u32, Seq<char>)>, tok: spec_fn(Seq<char>) -> int)
    requires
        units_fit(forest_texts(ns, path), tok),
    ensures
        forall|k: int|
            0 <= k < forest_chunks(ns, path, tok).len() ==> tok(
                #[trigger] forest_chunks(ns, path, tok)[k],
            ) <= MAX_TOKENS,
    decreases ns,
{
    if ns.len() > 0 {
        let init = ns.subrange(0, ns.len() - 1);
        lemma_units_fit_split(forest_texts(init, path), node_texts(ns[ns.len() - 1], path), tok);
        lemma_forest_within_limit(init, path, tok);
        law_chunks_within_limit(ns[ns.len() - 1], path, tok);
        lemma_all_within(forest_chunks(init, path, tok), node_chunks(ns[ns.len() - 1], path, tok), tok);
    }
}

/// The sections of a node and of its descendants that are not blank, in
/// pre-order, each as the heading path above it and its content.
pub open spec fn node_entries(n: NodeModel, path: Seq<(u32, Seq<char>)>) -> Seq<
    (Seq<(u32, Seq<char>)>, Seq<char>),
>
    decreases n,
{
    own_entries(n, path) + forest_entries(n.children, path.push((n.depth, n.title)))
}

/// A node's own section, where it has content that is not blank.
pub open spec fn own_entries(n: NodeModel, path: Seq<(u32, Seq<char>)>) -> Seq<
    (Seq<(u32, Seq<char>)>, Seq<char>),
> {
    match n.content {
        Some(c) => if trim(c).len() > 0 {
            seq![(path, c)]
        } else {
            seq![]
        },
        None => seq![],
    }
}

/// The sections of a sequence of sibling nodes, one after the other.
pub open spec fn forest_entries(ns: Seq<NodeModel>, path: Seq<(u32, Seq<char>)>) -> Seq<
    (Seq<(u32, Seq<char>)>, Seq<char>),
>
    decreases ns,
{
    if ns.len() == 0 {
        Seq::empty()
    } else {
        forest_entries(ns.subrange(0, ns.len() - 1), path) + node_entries(ns[ns.len() - 1], path)
    }
}

/// The slices of one section behind its heading path.
pub open spec fn entry_slices(tok: spec_fn(Seq<char>) -> int) -> spec_fn(
    (Seq<(u32, Seq<char>)>, Seq<char>),
) -> Seq<Seq<char>> {
    |e: (Seq<(u32, Seq<char>)>, Seq<char>)| slices_of(path_prefix(e.0) + e.1, tok)
}

/// The chunks of a subtree are the slices of its sections, section by
/// section, in pre-order.
pub proof fn lemma_node_chunks_by_section(
    n: NodeModel,
    path: Seq<(u32, Seq<char>)>,
    tok: spec_fn(Seq<char>) -> int,
)
    ensures
        node_chunks(n, path, tok) == node_entries(n, path).map_values(entry_slices(tok)).flatten(),
    decreases n,
{
    let child_path = path.push((n.depth, n.title));
    let f = entry_slices(tok);
    let own = own_entries(n, path);
    let rest = forest_entries(n.children, child_path);
    lemma_forest_chunks_by_section(n.children, child_path, tok);
    assert((own + rest).map_values(f) =~= own.map_values(f) + rest.map_values(f));
    vstd::seq_lib::lemma_flatten_concat(own.map_values(f), rest.map_values(f));
    if own.len() > 0 {
        assert(own.map_values(f) =~= seq![own_chunks(n, path, tok)]);
        own.map_values(f).lemma_flatten_one_element();
    } else {
        assert(own.map_values(f) =~= Seq::<Seq<Seq<char>>>::empty());
        assert(own_chunks(n, path, tok) =~= Seq::<Seq<char>>::empty());
    }
    assert(own.map_values(f).flatten() == own_chunks(n, path, tok));
}

proof fn lemma_forest_chunks_by_section(
    ns: Seq<NodeModel>,
    path: Seq<(u32, Seq<char>)>,
    tok: spec_fn(Seq<char>) -> int,
)
    ensures
        forest_chunks(ns, path, tok) == forest_entries(ns, path).map_values(entry_slices(tok)).flatten(),
    decreases ns,
{
    let f = entry_slices(tok);
    if ns.len() > 0 {
        let init = ns.subrange(0, ns.len() - 1);
        let a = forest_entries(init, path);
        let b = node_entries(ns[ns.len() - 1], path);
        lemma_forest_chunks_by_section(init, path, tok);
        lemma_node_chunks_by_section(ns[ns.len() - 1], path, tok);
        assert((a + b).map_values(f) =~= a.map_values(f) + b.map_values(f));
        vstd::seq_lib::lemma_flatten_concat(a.map_values(f), b.map_values(f));
    } else {
        assert(forest_entries(ns, path).map_values(f) =~= Seq::<Seq<Seq<char>>>::empty());
    }
}

/// A section keeps its document context: the first slice of a section
/// whose content `c` does not start with whitespace, under a heading path
/// of clean titles, where its heading lines and the first paragraph of `c`
/// fit in `MAX_TOKENS`, one by one and joined from the first, starts with
/// the heading path and then that paragraph.
pub proof fn law_section_starts_with_heading_path(
    path: Seq<(u32, Seq<char>)>,
    c: Seq<char>,
    tok: spec_fn(Seq<char>) -> int,
)
    requires
        trim(c).len() > 0,
        !is_ws(c[0]),
        forall|i: int| 0 <= i < path.len() ==> clean_title(#[trigger] path[i].1),
        leading_fit(path_prefix(path) + c, path.len() as int + 1, tok),
    ensures
        slices_of(path_prefix(path) + c, tok).len() > 0,
        starts_with(
            slices_of(path_prefix(path) + c, tok)[0],
            path_prefix(path) + trim(paragraphs(c)[0]),
        ),
{
    let n = NodeModel { depth: 0, title: Seq::empty(), content: Some(c), children: Seq::empty() };
    law_first_chunk_starts_with_heading_path(n, path, tok);
}

/// Every section that `node_entries` lists has content that is not blank.
pub proof fn lemma_entries_not_blank(n: NodeModel, path: Seq<(u32, Seq<char>)>)
    ensures
        forall|k: int|
            0 <= k < node_entries(n, path).len() ==> trim(#[trigger] node_entries(n, path)[k].1).len()
                > 0,
    decreases n,
{
    let child_path = path.push((n.depth, n.title));
    let own = own_entries(n, path);
    let rest = forest_entries(n.children, child_path);
    lemma_forest_entries_not_blank(n.children, child_path);
    assert forall|k: int| 0 <= k < node_entries(n, path).len() implies trim(
        #[trigger] node_entries(n, path)[k].1,
    ).len() > 0 by {
        if k < own.len() {
            assert(node_entries(n, path)[k] == own[k]);
        } else {
            assert(node_entries(n, path)[k] == rest[k - own.len()]);
        }
    }
}

proof fn lemma_forest_entries_not_blank(ns: Seq<NodeModel>, path: Seq<(u32, Seq<char>)>)
    ensures
        forall|k: int|
            0 <= k < forest_entries(ns, path).len() ==> trim(
                #[trigger] forest_entries(ns, path)[k].1,
            ).len() > 0,
    decreases ns,
{
    if ns.len() > 0 {
        let init = ns.subrange(0, ns.len() - 1);
        let a = forest_entries(init, path);
        let b = node_entries(ns[ns.len() - 1], path);
        lemma_forest_entries_not_blank(init, path);
        lemma_entries_not_blank(ns[ns.len() - 1], path);
        assert forall|k: int| 0 <= k < forest_entries(ns, path).len() implies trim(
            #[trigger] forest_entries(ns, path)[k].1,
        ).len() > 0 by {
            if k < a.len() {
                assert(forest_entries(ns, path)[k] == a[k]);
            } else {
                assert(forest_entries(ns, path)[k] == b[k - a.len()]);
            }
        }
    }
}

/// A section behind its heading path.
pub open spec fn entry_text() -> spec_fn((Seq<(u32, Seq<char>)>, Seq<char>)) -> Seq<char> {
    |e: (Seq<(u32, Seq<char>)>, Seq<char>)| path_prefix(e.0) + e.1
}

/// The texts of a subtree are its sections behind their heading paths.
pub proof fn lemma_node_texts_by_section(n: NodeModel, path: Seq<(u32, Seq<char>)>)
    ensures
        node_texts(n, path) == node_entries(n, path).map_values(entry_text()),
    decreases n,
{
    let child_path = path.push((n.depth, n.title));
    let own = own_entries(n, path);
    let rest = forest_entries(n.children, child_path);
    lemma_forest_texts_by_section(n.children, child_path);
    assert((own + rest).map_values(entry_text()) =~= own.map_values(entry_text()) + rest.map_values(
        entry_text(),
    ));
    assert(own.map_values(entry_text()) =~= own_texts(n, path));
}

proof fn lemma_forest_texts_by_section(ns: Seq<NodeModel>, path: Seq<(u32, Seq<char>)>)
    ensures
        forest_texts(ns, path) == forest_entries(ns, path).map_values(entry_text()),
    decreases ns,
{
    if ns.len() > 0 {
        let init = ns.subrange(0, ns.len() - 1);
        let a = forest_entries(init, path);
        let b = node_entries(ns[ns.len() - 1], path);
        lemma_forest_texts_by_section(init, path);
        lemma_node_texts_by_section(ns[ns.len() - 1], path);
        assert((a + b).map_values(entry_text()) =~= a.map_values(entry_text()) + b.map_values(
            entry_text(),
        ));
    } else {
        assert(forest_entries(ns, path).map_values(entry_text()) =~= Seq::<Seq<char>>::empty());
    }
}

} // verus!
