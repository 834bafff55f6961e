//! Properties of the heading tree that `tree_of` describes.

use vstd::prelude::*;
use crate::tree::{
    SectionModel, NodeModel, section_node, stop_at, forest, tree_of, lemma_stop_at,
    lemma_stop_at_skip,
};

verus! {

/// What a node holds besides its children: depth, title and content.
pub open spec fn label(n: NodeModel) -> (u32, Seq<char>, Option<Seq<char>>) {
    (n.depth, n.title, n.content)
}

/// The depth, title and content of each section, in order: no content
/// where a section has none.
pub open spec fn section_labels(secs: Seq<SectionModel>) -> Seq<(u32, Seq<char>, Option<Seq<char>>)> {
    secs.map_values(
        |s: SectionModel|
            (
                s.depth,
                s.title,
                if s.content.len() == 0 {
                    None
                } else {
                    Some(s.content)
                },
            ),
    )
}

/// The labels of a node and its descendants, in pre-order.
pub open spec fn preorder(n: NodeModel) -> Seq<(u32, Seq<char>, Option<Seq<char>>)>
    decreases n,
{
    seq![label(n)] + preorder_forest(n.children)
}

/// The labels of a sequence of sibling nodes and their descendants, in
/// pre-order.
pub open spec fn preorder_forest(ns: Seq<NodeModel>) -> Seq<(u32, Seq<char>, Option<Seq<char>>)>
    decreases ns,
{
    if ns.len() == 0 {
        Seq::empty()
    } else {
        preorder_forest(ns.subrange(0, ns.len() - 1)) + preorder(ns[ns.len() - 1])
    }
}

/// Every child of `n`, at every level, is deeper than its parent.
pub open spec fn well_nested(n: NodeModel) -> bool
    decreases n,
{
    forall|k: int|
        0 <= k < n.children.len() ==> #[trigger] n.children[k].depth > n.depth && well_nested(
            n.children[k],
        )
}

proof fn lemma_preorder_forest_concat(x: Seq<NodeModel>, y: Seq<NodeModel>)
    ensures
        preorder_forest(x + y) == preorder_forest(x) + preorder_forest(y),
    decreases y.len(),
{
    if y.len() == 0 {
        assert(x + y =~= x);
        assert(preorder_forest(x) + preorder_forest(y) =~= preorder_forest(x));
    } else {
        let y1 = y.subrange(0, y.len() - 1);
        lemma_preorder_forest_concat(x, y1);
        assert((x + y).subrange(0, (x + y).len() - 1) =~= x + y1);
        assert((x + y)[(x + y).len() - 1] == y[y.len() - 1]);
        assert(preorder_forest(x + y) =~= preorder_forest(x) + preorder_forest(y));
    }
}

proof fn lemma_preorder_forest_one(a: NodeModel)
    ensures
        preorder_forest(seq![a]) == preorder(a),
{
    assert(seq![a].subrange(0, 0) =~= Seq::<NodeModel>::empty());
    assert(preorder_forest(Seq::<NodeModel>::empty()) =~= Seq::empty());
    assert(seq![a][0] == a);
    assert(preorder_forest(seq![a]) == preorder_forest(Seq::<NodeModel>::empty()) + preorder(a));
    assert(preorder_forest(seq![a]) =~= preorder(a));
}

proof fn lemma_forest_preorder(secs: Seq<SectionModel>, i: int, d: int)
    requires
        0 <= i <= secs.len(),
    ensures
        preorder_forest(forest(secs, i, d)) == section_labels(
            secs.subrange(i, stop_at(secs, i, d)),
        ),
        forall|k: int|
            0 <= k < forest(secs, i, d).len() ==> #[trigger] forest(secs, i, d)[k].depth > d
                && well_nested(forest(secs, i, d)[k]),
    decreases secs.len() - i,
{
    lemma_stop_at(secs, i, d);
    if i >= secs.len() || secs[i].depth <= d {
        assert(section_labels(secs.subrange(i, stop_at(secs, i, d))) =~= Seq::empty());
    } else {
        let di = secs[i].depth as int;
        let j = stop_at(secs, i + 1, di);
        lemma_stop_at(secs, i + 1, di);
        lemma_forest_preorder(secs, i + 1, di);
        lemma_forest_preorder(secs, j, d);
        assert forall|k: int| i <= k < j implies secs[k].depth > d by {
            if k > i {
                assert(secs[k].depth > di);
            }
        }
        lemma_stop_at_skip(secs, i, j, d);
        let kids = forest(secs, i + 1, di);
        let node = section_node(secs[i], kids);
        let rest = forest(secs, j, d);
        assert(forest(secs, i, d) == seq![node] + rest);
        lemma_preorder_forest_concat(seq![node], rest);
        lemma_preorder_forest_one(node);
        assert(label(node) == label(section_node(secs[i], Seq::empty())));
        assert(section_labels(secs.subrange(i, j)) =~= seq![label(node)] + section_labels(
            secs.subrange(i + 1, j),
        ));
        assert(section_labels(secs.subrange(i, stop_at(secs, i, d))) =~= section_labels(
            secs.subrange(i, j),
        ) + section_labels(secs.subrange(j, stop_at(secs, j, d))));
        assert(node.children == kids);
        assert forall|k: int| 0 <= k < node.children.len() implies #[trigger] node.children[k].depth
            > node.depth && well_nested(node.children[k]) by {
            assert(kids[k].depth > di && well_nested(kids[k]));
        }
        assert(well_nested(node));
        assert forall|k: int|
            0 <= k < forest(secs, i, d).len() implies #[trigger] forest(secs, i, d)[k].depth > d
            && well_nested(forest(secs, i, d)[k]) by {
            if k > 0 {
                assert(forest(secs, i, d)[k] == rest[k - 1]);
            }
        }
    }
}

/// The heading tree holds every section once, in document order: walking
/// it in pre-order gives back the sections.
pub proof fn law_tree_preorder_is_sections(secs: Seq<SectionModel>)
    requires
        secs.len() > 0,
    ensures
        preorder(tree_of(secs)) == section_labels(secs),
{
    lemma_forest_preorder(secs, 1, -1);
    lemma_stop_at(secs, 1, -1);
    let root = tree_of(secs);
    assert(section_labels(secs) =~= seq![label(root)] + section_labels(secs.subrange(1, secs.len() as int)));
}

/// Below the root, every node sits under a shallower heading: each child
/// is deeper than its parent.
pub proof fn law_tree_children_deeper(secs: Seq<SectionModel>)
    requires
        secs.len() > 0,
    ensures
        forall|k: int|
            0 <= k < tree_of(secs).children.len() ==> well_nested(
                #[trigger] tree_of(secs).children[k],
            ),
{
    lemma_forest_preorder(secs, 1, -1);
}

/// The number of nodes under each node, itself included, in pre-order.
pub open spec fn extents(n: NodeModel) -> Seq<int>
    decreases n,
{
    seq![preorder(n).len() as int] + extents_forest(n.children)
}

/// The extents of a sequence of sibling nodes and their descendants.
pub open spec fn extents_forest(ns: Seq<NodeModel>) -> Seq<int>
    decreases ns,
{
    if ns.len() == 0 {
        Seq::empty()
    } else {
        extents_forest(ns.subrange(0, ns.len() - 1)) + extents(ns[ns.len() - 1])
    }
}

proof fn lemma_extents_forest_concat(x: Seq<NodeModel>, y: Seq<NodeModel>)
    ensures
        extents_forest(x + y) == extents_forest(x) + extents_forest(y),
    decreases y.len(),
{
    if y.len() == 0 {
        assert(x + y =~= x);
        assert(extents_forest(x) + extents_forest(y) =~= extents_forest(x));
    } else {
        let y1 = y.subrange(0, y.len() - 1);
        lemma_extents_forest_concat(x, y1);
        assert((x + y).subrange(0, (x + y).len() - 1) =~= x + y1);
        assert((x + y)[(x + y).len() - 1] == y[y.len() - 1]);
        assert(extents_forest(x + y) =~= extents_forest(x) + extents_forest(y));
    }
}

proof fn lemma_extents_forest_one(a: NodeModel)
    ensures
        extents_forest(seq![a]) == extents(a),
{
    assert(seq![a].subrange(0, 0) =~= Seq::<NodeModel>::empty());
    assert(extents_forest(Seq::<NodeModel>::empty()) =~= Seq::empty());
    assert(seq![a][0] == a);
    assert(extents_forest(seq![a]) == extents_forest(Seq::<NodeModel>::empty()) + extents(a));
    assert(extents_forest(seq![a]) =~= extents(a));
}

/// For each section from `a` up to `b`, the distance to the next section
/// at its depth or shallower.
spec fn runs(secs: Seq<SectionModel>, a: int, b: int) -> Seq<int> {
    Seq::new((b - a) as nat, |k: int| stop_at(secs, a + k + 1, secs[a + k].depth as int) - (a + k))
}

proof fn lemma_forest_extents(secs: Seq<SectionModel>, i: int, d: int)
    requires
        0 <= i <= secs.len(),
    ensures
        extents_forest(forest(secs, i, d)) == runs(secs, i, stop_at(secs, i, d)),
    decreases secs.len() - i,
{
    lemma_stop_at(secs, i, d);
    if i >= secs.len() || secs[i].depth <= d {
        assert(runs(secs, i, stop_at(secs, i, d)) =~= Seq::<int>::empty());
    } else {
        let di = secs[i].depth as int;
        let j = stop_at(secs, i + 1, di);
        lemma_stop_at(secs, i + 1, di);
        lemma_forest_preorder(secs, i + 1, di);
        lemma_forest_extents(secs, i + 1, di);
        lemma_forest_extents(secs, j, d);
        lemma_stop_at(secs, j, d);
        assert forall|k: int| i <= k < j implies secs[k].depth > d by {
            if k > i {
                assert(secs[k].depth > di);
            }
        }
        lemma_stop_at_skip(secs, i, j, d);
        let kids = forest(secs, i + 1, di);
        let node = section_node(secs[i], kids);
        let rest = forest(secs, j, d);
        assert(forest(secs, i, d) == seq![node] + rest);
        lemma_extents_forest_concat(seq![node], rest);
        lemma_extents_forest_one(node);
        assert(node.children == kids);
        assert(preorder(node).len() == 1 + preorder_forest(kids).len());
        assert(preorder_forest(kids).len() == j - (i + 1));
        assert(extents(node) == seq![j - i] + runs(secs, i + 1, j));
        assert(runs(secs, i, stop_at(secs, i, d)) =~= seq![j - i] + runs(secs, i + 1, j) + runs(
            secs,
            j,
            stop_at(secs, j, d),
        ));
    }
}

/// The heading tree nests each heading over exactly the headings that
/// follow it and are deeper, up to the next one at its depth or shallower:
/// in pre-order, the root spans every section, and the node of section `i`
/// spans `e` sections, the run from `i` that ends before the next section
/// at its depth or less (or at the end).
pub proof fn law_tree_subtrees_are_deeper_runs(secs: Seq<SectionModel>)
    requires
        secs.len() > 0,
    ensures
        extents(tree_of(secs)).len() == secs.len(),
        extents(tree_of(secs))[0] == secs.len(),
        forall|i: int|
            1 <= i < secs.len() ==> {
                let e = #[trigger] extents(tree_of(secs))[i];
                &&& 1 <= e
                &&& i + e <= secs.len()
                &&& forall|j: int| i < j < i + e ==> #[trigger] secs[j].depth > secs[i].depth
                &&& i + e == secs.len() || secs[i + e].depth <= secs[i].depth
            },
{
    law_tree_preorder_is_sections(secs);
    lemma_forest_extents(secs, 1, -1);
    lemma_stop_at(secs, 1, -1);
    assert forall|k: int| 1 <= k < secs.len() implies secs[k].depth > -1 by {}
    lemma_stop_at_skip(secs, 1, secs.len() as int, -1);
    assert(stop_at(secs, 1, -1) == secs.len());
    let root = tree_of(secs);
    assert(extents(root) == seq![preorder(root).len() as int] + runs(secs, 1, secs.len() as int));
    assert(preorder(root).len() == section_labels(secs).len());
    assert forall|i: int| 1 <= i < secs.len() implies {
        let e = #[trigger] extents(tree_of(secs))[i];
        &&& 1 <= e
        &&& i + e <= secs.len()
        &&& forall|j: int| i < j < i + e ==> #[trigger] secs[j].depth > secs[i].depth
        &&& i + e == secs.len() || secs[i + e].depth <= secs[i].depth
    } by {
        assert(extents(root)[i] == runs(secs, 1, secs.len() as int)[i - 1]);
        lemma_stop_at(secs, i + 1, secs[i].depth as int);
    }
}

} // verus!
