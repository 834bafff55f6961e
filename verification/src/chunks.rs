//! Turning the heading tree into chunks: each node's content, behind the
//! headings of its ancestors, cut into slices.

use vstd::prelude::*;
use crate::text::{
    trim, strip_ws, lemma_strip_add, chars_of, trim_chars, push_all, lemma_flatten_cons,
    lemma_strip_separators,
};
use crate::slicing_laws::law_slices_keep_text;
use vstd::seq_lib::lemma_flatten_concat;
use crate::tokens::{callable, deterministic, token_fn};
use crate::slicing::{slices_of, strings, lemma_strings_push, split_text_into_slices};
use crate::tree::{TreeNode, NodeModel, PathElement, node_view, lemma_node_view_children, node_views};

verus! {

/// The depth and title of each heading on a path.
pub open spec fn path_views(v: Seq<PathElement>) -> Seq<(u32, Seq<char>)> {
    v.map_values(|p: PathElement| (p.depth, p.title@))
}

/// The markdown heading line for a path element: as many `#` as its depth
/// (one for depth 0), a space, its title and a blank line.
pub open spec fn heading_line(depth: u32, title: Seq<char>) -> Seq<char> {
    let level: nat = if depth == 0 {
        1
    } else {
        depth as nat
    };
    Seq::new(level, |i: int| '#') + seq![' '] + title + seq!['\n', '\n']
}

/// The heading lines of all the elements of a path, in order.
pub open spec fn path_prefix(path: Seq<(u32, Seq<char>)>) -> Seq<char>
    decreases path.len(),
{
    if path.len() == 0 {
        Seq::empty()
    } else {
        path_prefix(path.drop_last()) + heading_line(path.last().0, path.last().1)
    }
}

/// The chunks of a node's own content, under the headings of `path`: none
/// where it has no content or only whitespace.
pub open spec fn own_chunks(
    n: NodeModel,
    path: Seq<(u32, Seq<char>)>,
    tok: spec_fn(Seq<char>) -> int,
) -> Seq<Seq<char>> {
    match n.content {
        Some(c) => if trim(c).len() > 0 {
            slices_of(path_prefix(path) + c, tok)
        } else {
            seq![]
        },
        None => seq![],
    }
}

/// The chunks of a node and of its descendants in pre-order, `path` being
/// the headings of its ancestors.
pub open spec fn node_chunks(
    n: NodeModel,
    path: Seq<(u32, Seq<char>)>,
    tok: spec_fn(Seq<char>) -> int,
) -> Seq<Seq<char>>
    decreases n,
{
    own_chunks(n, path, tok) + forest_chunks(n.children, path.push((n.depth, n.title)), tok)
}

/// The chunks of a sequence of sibling nodes, one after the other.
pub open spec fn forest_chunks(
    ns: Seq<NodeModel>,
    path: Seq<(u32, Seq<char>)>,
    tok: spec_fn(Seq<char>) -> int,
) -> Seq<Seq<char>>
    decreases ns,
{
    if ns.len() == 0 {
        Seq::empty()
    } else {
        forest_chunks(ns.subrange(0, ns.len() - 1), path, tok) + node_chunks(
            ns[ns.len() - 1],
            path,
            tok,
        )
    }
}

/// The heading lines of `path`.
fn heading_prefix(path: &Vec<PathElement>, len: usize) -> (r: Vec<char>)
    requires
        len <= path@.len(),
    ensures
        r@ == path_prefix(path_views(path@).take(len as int)),
{
    let ghost pv = path_views(path@);
    let mut r: Vec<char> = Vec::new();
    let mut k: usize = 0;
    assert(pv.take(0) =~= Seq::<(u32, Seq<char>)>::empty());
    while k < len
        invariant
            k <= len <= path@.len(),
            pv == path_views(path@),
            r@ == path_prefix(pv.take(k as int)),
        decreases len - k,
    {
        let p = &path[k];
        let level: usize = if p.depth == 0 {
            1
        } else {
            p.depth as usize
        };
        let ghost before = r@;
        let mut j: usize = 0;
        while j < level
            invariant
                j <= level,
                r@ == before + Seq::new(j as nat, |i: int| '#'),
            decreases level - j,
        {
            r.push('#');
            assert(r@ =~= before + Seq::new((j + 1) as nat, |i: int| '#'));
            j += 1;
        }
        r.push(' ');
        let title = chars_of(p.title.as_str());
        push_all(&mut r, &title);
        r.push('\n');
        r.push('\n');
        assert(pv.take(k + 1).drop_last() =~= pv.take(k as int));
        assert(pv[k as int] == (p.depth, p.title@));
        assert(r@ =~= before + heading_line(p.depth, p.title@));
        k += 1;
    }
    r
}

/// The text of a node's own chunks before splitting: its heading path and
/// its content, where the content is not blank.
pub open spec fn own_texts(n: NodeModel, path: Seq<(u32, Seq<char>)>) -> Seq<Seq<char>> {
    match n.content {
        Some(c) => if trim(c).len() > 0 {
            seq![path_prefix(path) + c]
        } else {
            seq![]
        },
        None => seq![],
    }
}

/// The texts of a node and its descendants before splitting, one per node
/// with content that is not blank, in pre-order.
pub open spec fn node_texts(n: NodeModel, path: Seq<(u32, Seq<char>)>) -> Seq<Seq<char>>
    decreases n,
{
    own_texts(n, path) + forest_texts(n.children, path.push((n.depth, n.title)))
}

/// The texts of a sequence of sibling nodes, one after the other.
pub open spec fn forest_texts(ns: Seq<NodeModel>, path: Seq<(u32, Seq<char>)>) -> Seq<Seq<char>>
    decreases ns,
{
    if ns.len() == 0 {
        Seq::empty()
    } else {
        forest_texts(ns.subrange(0, ns.len() - 1), path) + node_texts(ns[ns.len() - 1], path)
    }
}

proof fn lemma_forest_texts_prefix(ns: Seq<NodeModel>, path: Seq<(u32, Seq<char>)>, i: int)
    requires
        0 <= i <= ns.len(),
    ensures
        forest_texts(ns.take(i), path).len() <= forest_texts(ns, path).len(),
    decreases ns.len() - i,
{
    if i < ns.len() {
        lemma_forest_texts_prefix(ns, path, i + 1);
        let t = ns.take(i + 1);
        assert(t.subrange(0, t.len() - 1) =~= ns.take(i));
    } else {
        assert(ns.take(i) =~= ns);
    }
}

proof fn lemma_skip_extend(a: Seq<String>, b: Seq<String>, n0: int)
    requires
        0 <= n0 <= a.len() <= b.len(),
        b.take(a.len() as int) == a,
    ensures
        strings(b).skip(n0) == strings(a).skip(n0) + strings(b).skip(a.len() as int),
        b.take(n0) == a.take(n0),
{
    assert(strings(b).skip(n0) =~= strings(a).skip(n0) + strings(b).skip(a.len() as int)) by {
        assert forall|k: int| 0 <= k < b.len() - n0 implies strings(b).skip(n0)[k] == (strings(
            a,
        ).skip(n0) + strings(b).skip(a.len() as int))[k] by {
            if k < a.len() - n0 {
                assert(b.take(a.len() as int)[n0 + k] == b[n0 + k]);
            }
        }
    }
    assert(b.take(n0) =~= a.take(n0)) by {
        assert forall|k: int| 0 <= k < n0 implies b.take(n0)[k] == a.take(n0)[k] by {
            assert(b.take(a.len() as int)[k] == b[k]);
        }
    }
}

/// Appends the chunks of `node`'s own content, under the headings of
/// `current_path` but its last element, as `own_chunks` says.
fn push_own_chunks<F: Fn(&str) -> usize>(
    node: &TreeNode,
    current_path: &Vec<PathElement>,
    chunks: &mut Vec<String>,
    count_tokens: &F,
)
    requires
        callable(*count_tokens),
        current_path@.len() >= 1,
    ensures
        old(chunks)@.len() <= final(chunks)@.len(),
        final(chunks)@.take(old(chunks)@.len() as int) == old(chunks)@,
        strip_ws(strings(final(chunks)@).skip(old(chunks)@.len() as int).flatten()) == strip_ws(
            own_texts(node@, path_views(current_path@).drop_last()).flatten(),
        ),
        own_texts(node@, path_views(current_path@).drop_last()).len() == 0 ==> final(chunks)@
            == old(chunks)@,
        deterministic(*count_tokens) ==> strings(final(chunks)@) == strings(old(chunks)@)
            + own_chunks(node@, path_views(current_path@).drop_last(), token_fn(*count_tokens)),
{
    let ghost tok = token_fn(*count_tokens);
    let ghost n = node_view(*node);
    let ghost c0 = chunks@;
    let ghost n0 = chunks@.len() as int;
    let ghost path1 = path_views(current_path@);
    let ghost path0 = path1.drop_last();
    proof {
        lemma_strip_separators();
    }
    match &node.content {
        Some(content) => {
            let cv = chars_of(content.as_str());
            let trimmed = trim_chars(&cv);
            if trimmed.len() > 0 {
                let mut full = heading_prefix(current_path, current_path.len() - 1);
                assert(path1.take(path1.len() - 1) =~= path0);
                push_all(&mut full, &cv);
                let slices = split_text_into_slices(&full, count_tokens);
                let ghost before = strings(chunks@);
                let mut k: usize = 0;
                while k < slices.len()
                    invariant
                        k <= slices@.len(),
                        0 <= n0,
                        chunks@.len() == n0 + k,
                        chunks@.take(n0) == c0,
                        strings(chunks@) == before + strings(slices@).take(k as int),
                    decreases slices@.len() - k,
                {
                    let s = slices[k].clone();
                    let ghost prev = chunks@;
                    proof {
                        lemma_strings_push(chunks@, s);
                    }
                    chunks.push(s);
                    assert(chunks@ == prev.push(s));
                    assert(chunks@.take(n0) =~= prev.take(n0));
                    assert(strings(slices@).take(k + 1) =~= strings(slices@).take(k as int).push(
                        slices@[k as int]@,
                    ));
                    k += 1;
                }
                assert(strings(slices@).take(slices@.len() as int) =~= strings(slices@));
                assert(strings(chunks@).skip(n0) =~= strings(slices@));
                proof {
                    lemma_flatten_cons(full@, Seq::<Seq<char>>::empty());
                    assert(own_texts(n, path0) =~= seq![full@] + Seq::<Seq<char>>::empty());
                    assert(full@ + Seq::<Seq<char>>::empty().flatten() =~= full@);
                }
            } else {
                assert(chunks@.take(n0) =~= c0);
                assert(strings(chunks@).skip(n0) =~= Seq::<Seq<char>>::empty());
            }
        },
        None => {
            assert(chunks@.take(n0) =~= c0);
            assert(strings(chunks@).skip(n0) =~= Seq::<Seq<char>>::empty());
        },
    }
    assert(chunks@.take(n0) =~= c0);
}

/// Appends the chunks of `node` and its descendants to `chunks`, as
/// `node_chunks` says, `current_path` holding the headings of its ancestors.
/// Whatever the counts, the chunks already there stay, the path is given
/// back as it was, the new chunks hold, whitespace aside, the texts of
/// `node_texts`, and a subtree without text adds no chunk.
pub fn flatten_and_chunk<F: Fn(&str) -> usize>(
    node: &TreeNode,
    current_path: &mut Vec<PathElement>,
    chunks: &mut Vec<String>,
    count_tokens: &F,
)
    requires
        callable(*count_tokens),
    ensures
        path_views(final(current_path)@) == path_views(old(current_path)@),
        old(chunks)@.len() <= final(chunks)@.len(),
        final(chunks)@.take(old(chunks)@.len() as int) == old(chunks)@,
        strip_ws(strings(final(chunks)@).skip(old(chunks)@.len() as int).flatten()) == strip_ws(
            node_texts(node@, path_views(old(current_path)@)).flatten(),
        ),
        node_texts(node@, path_views(old(current_path)@)).len() == 0 ==> final(chunks)@ == old(
            chunks,
        )@,
        deterministic(*count_tokens) ==> strings(final(chunks)@) == strings(old(chunks)@)
            + node_chunks(node@, path_views(old(current_path)@), token_fn(*count_tokens)),
    decreases node,
{
    let ghost tok = token_fn(*count_tokens);
    let ghost path0 = path_views(current_path@);
    let ghost n = node_view(*node);
    let ghost c0 = chunks@;
    let ghost n0 = chunks@.len() as int;
    current_path.push(PathElement { depth: node.heading.depth, title: node.heading.title.clone() });
    let ghost path1 = path_views(current_path@);
    assert(path1 =~= path0.push((n.depth, n.title)));
    assert(path1.drop_last() =~= path0);
    proof {
        lemma_strip_separators();
    }
    push_own_chunks(node, current_path, chunks, count_tokens);
    assert(deterministic(*count_tokens) ==> strings(chunks@) == strings(old(chunks)@)
        + own_chunks(n, path0, tok));
    assert(strip_ws(strings(chunks@).skip(n0).flatten()) == strip_ws(own_texts(n, path0).flatten()));
    assert(own_texts(n, path0).len() == 0 ==> chunks@ == c0);
    proof {
        lemma_node_view_children(*node);
        assert(n.children.take(0) =~= Seq::<NodeModel>::empty());
        assert(own_texts(n, path0) + forest_texts(n.children.take(0), path1) =~= own_texts(
            n,
            path0,
        ));
    }
    let ghost mid = strings(chunks@);
    let ghost own = own_texts(n, path0);
    let mut i: usize = 0;
    while i < node.children.len()
        invariant
            callable(*count_tokens),
            tok == token_fn(*count_tokens),
            i <= node.children@.len(),
            n == node_view(*node),
            n.children == node_views(node.children@),
            path_views(current_path@) == path1,
            path1 == path0.push((n.depth, n.title)),
            own == own_texts(n, path0),
            n0 == c0.len(),
            n0 <= chunks@.len(),
            chunks@.take(n0) == c0,
            strip_ws(strings(chunks@).skip(n0).flatten()) == strip_ws(
                (own + forest_texts(n.children.take(i as int), path1)).flatten(),
            ),
            node_texts(n, path0).len() == 0 ==> chunks@ == c0,
            deterministic(*count_tokens) ==> strings(chunks@) == mid + forest_chunks(
                n.children.take(i as int),
                path1,
                tok,
            ),
        decreases node.children@.len() - i,
    {
        let ghost before = strings(chunks@);
        let ghost cb = chunks@;
        flatten_and_chunk(&node.children[i], current_path, chunks, count_tokens);
        proof {
            let t = n.children.take(i + 1);
            let child = node_view(node.children@[i as int]);
            assert(t.subrange(0, t.len() - 1) =~= n.children.take(i as int));
            assert(t[t.len() - 1] == child);
            if deterministic(*count_tokens) {
                assert(strings(chunks@) =~= mid + forest_chunks(t, path1, tok));
            }
            lemma_skip_extend(cb, chunks@, n0);
            let ft = forest_texts(n.children.take(i as int), path1);
            let ct = node_texts(child, path1);
            assert(forest_texts(t, path1) == ft + ct);
            lemma_flatten_concat(strings(cb).skip(n0), strings(chunks@).skip(cb.len() as int));
            lemma_strip_add(strings(cb).skip(n0).flatten(), strings(chunks@).skip(cb.len() as int).flatten());
            assert(own + (ft + ct) =~= (own + ft) + ct);
            lemma_flatten_concat(own + ft, ct);
            lemma_strip_add((own + ft).flatten(), ct.flatten());
            if node_texts(n, path0).len() == 0 {
                lemma_forest_texts_prefix(n.children, path1, i + 1);
                assert(ct.len() == 0);
                assert(chunks@ =~= cb);
            }
        }
        i += 1;
    }
    assert(n.children.take(node.children@.len() as int) =~= n.children);
    current_path.pop();
    assert(path_views(current_path@) =~= path0);
    proof {
        if deterministic(*count_tokens) {
            assert(strings(chunks@) =~= strings(old(chunks)@) + node_chunks(n, path0, tok));
        }
    }
}

/// A section's chunks carry the headings of its ancestors before its text:
/// put back together they hold, whitespace aside, the heading lines of the
/// path and then the section's content.
pub proof fn law_chunks_carry_heading_path(
    n: NodeModel,
    path: Seq<(u32, Seq<char>)>,
    tok: spec_fn(Seq<char>) -> int,
)
    requires
        n.content is Some,
        trim(n.content->0).len() > 0,
    ensures
        strip_ws(own_chunks(n, path, tok).flatten()) == strip_ws(path_prefix(path)) + strip_ws(
            n.content->0,
        ),
{
    law_slices_keep_text(path_prefix(path) + n.content->0, tok);
    lemma_strip_add(path_prefix(path), n.content->0);
}

} // verus!
