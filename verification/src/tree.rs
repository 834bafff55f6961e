//! Sections of a document and the heading tree built from them.

use vstd::prelude::*;

verus! {

pub struct Heading {
    pub depth: u32,
    pub title: String,
}

pub struct PathElement {
    pub depth: u32,
    pub title: String,
}

pub struct Section {
    pub depth: u32,
    pub title: String,
    pub content: String,
}

pub struct SectionModel {
    pub depth: u32,
    pub title: Seq<char>,
    pub content: Seq<char>,
}

impl View for Section {
    type V = SectionModel;

    open spec fn view(&self) -> SectionModel {
        SectionModel { depth: self.depth, title: self.title@, content: self.content@ }
    }
}

pub open spec fn section_views(s: Seq<Section>) -> Seq<SectionModel> {
    s.map_values(|x: Section| x@)
}

pub struct TreeNode {
    pub children: Vec<TreeNode>,
    pub content: Option<String>,
    pub heading: Heading,
}

pub struct NodeModel {
    pub depth: u32,
    pub title: Seq<char>,
    pub content: Option<Seq<char>>,
    pub children: Seq<NodeModel>,
}

pub open spec fn opt_view(o: Option<String>) -> Option<Seq<char>> {
    match o {
        Some(s) => Some(s@),
        None => None,
    }
}

pub open spec fn empty_node() -> NodeModel {
    NodeModel { depth: 0, title: Seq::empty(), content: None, children: Seq::empty() }
}

pub open spec fn node_view(n: TreeNode) -> NodeModel
    decreases n,
{
    NodeModel {
        depth: n.heading.depth,
        title: n.heading.title@,
        content: opt_view(n.content),
        children: Seq::new(
            n.children@.len(),
            |i: int|
                if 0 <= i < n.children@.len() {
                    node_view(n.children@[i])
                } else {
                    empty_node()
                },
        ),
    }
}

impl View for TreeNode {
    type V = NodeModel;

    open spec fn view(&self) -> NodeModel {
        node_view(*self)
    }
}

pub open spec fn node_views(v: Seq<TreeNode>) -> Seq<NodeModel> {
    v.map_values(|n: TreeNode| node_view(n))
}

pub proof fn lemma_node_view_children(n: TreeNode)
    ensures
        node_view(n).children == node_views(n.children@),
{
    assert(node_view(n).children =~= node_views(n.children@));
}

pub proof fn lemma_node_views_push(v: Seq<TreeNode>, x: TreeNode)
    ensures
        node_views(v.push(x)) == node_views(v).push(node_view(x)),
{
    assert(node_views(v.push(x)) =~= node_views(v).push(node_view(x)));
}

/// The node of section `s`, with no content where `s` has none.
pub open spec fn section_node(s: SectionModel, children: Seq<NodeModel>) -> NodeModel {
    NodeModel {
        depth: s.depth,
        title: s.title,
        content: if s.content.len() == 0 {
            None
        } else {
            Some(s.content)
        },
        children,
    }
}

/// The first index at or after `i` of a section at depth `d` or less, or
/// `secs.len()` where there is none (`i` itself where it is past the end).
pub open spec fn stop_at(secs: Seq<SectionModel>, i: int, d: int) -> int
    decreases secs.len() - i,
{
    if i >= secs.len() {
        i
    } else if secs[i].depth <= d {
        i
    } else {
        stop_at(secs, i + 1, d)
    }
}

/// The nodes of the sections from `i` on that are deeper than `d`: each
/// takes as children the deeper sections that follow it, up to the next one
/// at its depth or less.
pub open spec fn forest(secs: Seq<SectionModel>, i: int, d: int) -> Seq<NodeModel>
    decreases secs.len() - i,
{
    if i < 0 || i >= secs.len() || secs[i].depth <= d {
        seq![]
    } else {
        let j = stop_at(secs, i + 1, secs[i].depth as int);
        let node = section_node(secs[i], forest(secs, i + 1, secs[i].depth as int));
        if i < j <= secs.len() {
            seq![node] + forest(secs, j, d)
        } else {
            seq![node]
        }
    }
}

/// The tree of a document's sections: the first section is the root, and
/// every other one sits under the nearest shallower section before it
/// (under the root where there is none).
pub open spec fn tree_of(secs: Seq<SectionModel>) -> NodeModel
    recommends
        secs.len() > 0,
{
    section_node(secs[0], forest(secs, 1, -1))
}

pub proof fn lemma_stop_at(secs: Seq<SectionModel>, i: int, d: int)
    requires
        0 <= i <= secs.len(),
    ensures
        i <= stop_at(secs, i, d) <= secs.len(),
        forall|k: int| i <= k < stop_at(secs, i, d) ==> secs[k].depth > d,
        stop_at(secs, i, d) < secs.len() ==> secs[stop_at(secs, i, d)].depth <= d,
    decreases secs.len() - i,
{
    if i < secs.len() && secs[i].depth > d {
        lemma_stop_at(secs, i + 1, d);
    }
}

pub proof fn lemma_stop_at_skip(secs: Seq<SectionModel>, i: int, j: int, d: int)
    requires
        0 <= i <= j <= secs.len(),
        forall|k: int| i <= k < j ==> secs[k].depth > d,
    ensures
        stop_at(secs, i, d) == stop_at(secs, j, d),
    decreases j - i,
{
    if i < j {
        lemma_stop_at_skip(secs, i + 1, j, d);
    }
}

/// A childless node for `sec`.
fn make_node(sec: &Section) -> (n: TreeNode)
    ensures
        n@ == section_node(sec@, seq![]),
        n.children@.len() == 0,
{
    let n = TreeNode {
        children: vec![],
        content: if sec.content.as_str().is_empty() {
            None
        } else {
            Some(sec.content.clone())
        },
        heading: Heading { depth: sec.depth, title: sec.title.clone() },
    };
    assert(node_view(n).children =~= Seq::<NodeModel>::empty());
    n
}

/// Appends to `children` the nodes of the sections from `start_idx` on that
/// are deeper than `parent_depth`, as `forest` says, and returns the index
/// where it stopped.
pub fn build_tree_recursive(
    sections: &Vec<Section>,
    start_idx: usize,
    parent_depth: u32,
    children: &mut Vec<TreeNode>,
) -> (end: usize)
    ensures
        end == stop_at(section_views(sections@), start_idx as int, parent_depth as int),
        node_views(final(children)@) == node_views(old(children)@) + forest(
            section_views(sections@),
            start_idx as int,
            parent_depth as int,
        ),
    decreases sections@.len() - start_idx,
{
    let ghost secs = section_views(sections@);
    let ghost d = parent_depth as int;
    if start_idx >= sections.len() {
        assert(node_views(children@) + forest(secs, start_idx as int, d) =~= node_views(children@));
        return start_idx;
    }
    let mut i: usize = start_idx;
    proof {
        lemma_stop_at(secs, start_idx as int, d);
    }
    while i < sections.len()
        invariant_except_break
            start_idx <= i <= sections@.len(),
            secs == section_views(sections@),
            d == parent_depth as int,
            stop_at(secs, start_idx as int, d) == stop_at(secs, i as int, d),
            node_views(old(children)@) + forest(secs, start_idx as int, d) == node_views(
                children@,
            ) + forest(secs, i as int, d),
        ensures
            i == stop_at(secs, start_idx as int, d),
            node_views(old(children)@) + forest(secs, start_idx as int, d) == node_views(
                children@,
            ),
        decreases sections@.len() - i,
    {
        let sec = &sections[i];
        if sec.depth <= parent_depth {
            assert(forest(secs, i as int, d) =~= Seq::<NodeModel>::empty());
            assert(node_views(children@) + forest(secs, i as int, d) =~= node_views(children@));
            break;
        }
        let mut child = make_node(sec);
        let ghost di = sec.depth as int;
        let next: usize = build_tree_recursive(sections, i + 1, sec.depth, &mut child.children);
        proof {
            lemma_stop_at(secs, i + 1, di);
            lemma_node_view_children(child);
            assert(node_views(Seq::<TreeNode>::empty()) =~= Seq::<NodeModel>::empty());
            assert(node_view(child) == section_node(secs[i as int], forest(secs, i + 1, di)));
            assert forall|k: int| i <= k < next implies secs[k].depth > d by {
                if k > i {
                    assert(secs[k].depth > di);
                }
            }
            lemma_stop_at_skip(secs, i as int, next as int, d);
            lemma_node_views_push(children@, child);
        }
        children.push(child);
        i = next;
        assert(node_views(old(children)@) + forest(secs, start_idx as int, d) =~= node_views(
            children@,
        ) + forest(secs, i as int, d));
    }
    proof {
        if i >= sections.len() {
            assert(node_views(children@) + forest(secs, i as int, d) =~= node_views(children@));
        }
    }
    i
}

/// The heading tree of `sections`, as `tree_of` says.
pub fn build_tree(sections: &Vec<Section>) -> (root: TreeNode)
    requires
        sections@.len() > 0,
    ensures
        root@ == tree_of(section_views(sections@)),
{
    let ghost secs = section_views(sections@);
    let first = &sections[0];
    let mut root = make_node(first);
    let mut i: usize = 1;
    proof {
        lemma_node_view_children(root);
        assert(node_views(root.children@) =~= Seq::<NodeModel>::empty());
        assert(secs[0] == sections@[0]@);
    }
    assert(node_views(root.children@) + forest(secs, 1, -1) =~= forest(secs, 1, -1));
    while i < sections.len()
        invariant
            1 <= i <= sections@.len(),
            secs == section_views(sections@),
            node_view(root) == section_node(secs[0], node_views(root.children@)),
            node_views(root.children@) + forest(secs, i as int, -1) == forest(secs, 1, -1),
        decreases sections@.len() - i,
    {
        let sec = &sections[i];
        let mut child = make_node(sec);
        let ghost di = sec.depth as int;
        let next: usize = build_tree_recursive(sections, i + 1, sec.depth, &mut child.children);
        proof {
            lemma_stop_at(secs, i + 1, di);
            lemma_node_view_children(child);
            assert(node_views(Seq::<TreeNode>::empty()) =~= Seq::<NodeModel>::empty());
            lemma_node_views_push(root.children@, child);
        }
        root.children.push(child);
        proof {
            lemma_node_view_children(root);
        }
        i = next;
        assert(node_views(root.children@) + forest(secs, i as int, -1) =~= forest(secs, 1, -1));
    }
    proof {
        lemma_node_view_children(root);
        assert(node_views(root.children@) =~= forest(secs, 1, -1));
    }
    root
}

} // verus!
