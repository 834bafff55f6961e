//! Splitting a markdown document into chunks for the vector store.

use vstd::prelude::*;
use crate::markdown::{markdown_blocks, md_blocks};
use crate::sections::{MdBlock, block_views, sections_from_blocks, sections_of};
use crate::tree::{TreeNode, PathElement, build_tree, tree_of};
use crate::chunks::{flatten_and_chunk, node_chunks, node_texts, path_views, path_prefix};
use crate::slicing::{strings, slices_of, starts_with};
use crate::text::{strip_ws, is_ws, paragraphs, trim};
use crate::chunks_laws::{
    all_fit, law_one_chunk_per_section, units_fit, law_chunks_within_limit, node_entries,
    entry_slices, entry_text, clean_title, leading_fit, lemma_node_chunks_by_section,
    lemma_node_texts_by_section, lemma_entries_not_blank, law_section_starts_with_heading_path,
};
use crate::tokens::{MAX_TOKENS, callable, deterministic, token_fn};

verus! {

/// The chunks of a document named `name` whose top-level blocks are
/// `blocks`: those of every node of its heading tree, in pre-order.
pub open spec fn doc_chunks(
    blocks: Seq<(Option<u8>, Seq<char>)>,
    name: Seq<char>,
    tok: spec_fn(Seq<char>) -> int,
) -> Seq<Seq<char>> {
    node_chunks(tree_of(sections_of(blocks, name)), Seq::empty(), tok)
}

/// The texts of a document named `name` whose top-level blocks are
/// `blocks`, before splitting: each non-blank section behind its heading
/// path, in document order.
pub open spec fn doc_texts(blocks: Seq<(Option<u8>, Seq<char>)>, name: Seq<char>) -> Seq<Seq<char>> {
    node_texts(tree_of(sections_of(blocks, name)), Seq::empty())
}

/// The heading tree of a document named `file_name` whose top-level blocks
/// are `blocks`.
pub fn tree_from_blocks(blocks: &Vec<MdBlock>, file_name: &str) -> (tree: TreeNode)
    ensures
        tree@ == tree_of(sections_of(block_views(blocks@), file_name@)),
{
    let sections = sections_from_blocks(blocks, file_name);
    build_tree(&sections)
}

/// Parses `markdown` and builds the heading tree of the document named
/// `file_name`.
pub fn parse_markdown_to_tree(markdown: &str, file_name: &str) -> (tree: TreeNode)
    ensures
        tree@ == tree_of(sections_of(md_blocks(markdown@), file_name@)),
{
    let blocks = markdown_blocks(markdown);
    tree_from_blocks(&blocks, file_name)
}

/// The chunks of the tree `tree`, from an empty heading path.
fn chunk_tree<F: Fn(&str) -> usize>(tree: &TreeNode, count_tokens: &F) -> (chunks: Vec<String>)
    requires
        callable(*count_tokens),
    ensures
        strip_ws(strings(chunks@).flatten()) == strip_ws(node_texts(tree@, Seq::empty()).flatten()),
        node_texts(tree@, Seq::empty()).len() == 0 ==> chunks@.len() == 0,
        deterministic(*count_tokens) ==> strings(chunks@) == node_chunks(
            tree@,
            Seq::empty(),
            token_fn(*count_tokens),
        ),
{
    let mut chunks: Vec<String> = Vec::new();
    let mut path: Vec<PathElement> = Vec::new();
    assert(path_views(path@) =~= Seq::<(u32, Seq<char>)>::empty());
    flatten_and_chunk(tree, &mut path, &mut chunks, count_tokens);
    assert(strings(Seq::<String>::empty()) =~= Seq::<Seq<char>>::empty());
    assert(strings(chunks@).skip(0) =~= strings(chunks@));
    chunks
}

/// The chunks of a document named `doc_name` whose top-level blocks are
/// `blocks`. Whatever the counts, they hold, whitespace aside, the texts of
/// `doc_texts`, and there are none where it has none; for a counter that
/// gives equal counts for equal texts they are exactly `doc_chunks`, and
/// each fits in `MAX_TOKENS` where every unit of those texts does.
pub fn split_md_blocks<F: Fn(&str) -> usize>(blocks: &Vec<MdBlock>, doc_name: &str, count_tokens: &F) -> (chunks: Vec<String>)
    requires
        callable(*count_tokens),
    ensures
        strip_ws(strings(chunks@).flatten()) == strip_ws(
            doc_texts(block_views(blocks@), doc_name@).flatten(),
        ),
        doc_texts(block_views(blocks@), doc_name@).len() == 0 ==> chunks@.len() == 0,
        deterministic(*count_tokens) ==> strings(chunks@) == doc_chunks(
            block_views(blocks@),
            doc_name@,
            token_fn(*count_tokens),
        ),
        deterministic(*count_tokens) && units_fit(
            doc_texts(block_views(blocks@), doc_name@),
            token_fn(*count_tokens),
        ) ==> forall|k: int|
            0 <= k < chunks@.len() ==> token_fn(*count_tokens)(#[trigger] chunks@[k]@) <= MAX_TOKENS,
{
    let tree = tree_from_blocks(blocks, doc_name);
    let chunks = chunk_tree(&tree, count_tokens);
    proof {
        let tok = token_fn(*count_tokens);
        if deterministic(*count_tokens) && units_fit(doc_texts(block_views(blocks@), doc_name@), tok) {
            law_chunks_of_doc_within_limit(block_views(blocks@), doc_name@, tok);
            assert forall|k: int| 0 <= k < chunks@.len() implies tok(#[trigger] chunks@[k]@)
                <= MAX_TOKENS by {
                assert(strings(chunks@)[k] == chunks@[k]@);
                assert(tok(doc_chunks(block_views(blocks@), doc_name@, tok)[k]) <= MAX_TOKENS);
            }
        }
    }
    chunks
}

/// Splits the markdown document `doc_text`, named `doc_name`, into chunks:
/// every section's text behind the headings above it, cut into slices
/// bounded by the token counts that `count_tokens` gives. Whatever the
/// counts, the chunks hold, whitespace aside, the texts of `doc_texts` of
/// the parsed document; for a counter that gives equal counts for equal
/// texts they are exactly `doc_chunks` of it, and each fits in `MAX_TOKENS`
/// where every unit of those texts does.
pub fn split_md_doc<F: Fn(&str) -> usize>(doc_text: &str, doc_name: &str, count_tokens: &F) -> (chunks: Vec<String>)
    requires
        callable(*count_tokens),
    ensures
        strip_ws(strings(chunks@).flatten()) == strip_ws(
            doc_texts(md_blocks(doc_text@), doc_name@).flatten(),
        ),
        doc_texts(md_blocks(doc_text@), doc_name@).len() == 0 ==> chunks@.len() == 0,
        deterministic(*count_tokens) ==> strings(chunks@) == doc_chunks(
            md_blocks(doc_text@),
            doc_name@,
            token_fn(*count_tokens),
        ),
        deterministic(*count_tokens) && units_fit(
            doc_texts(md_blocks(doc_text@), doc_name@),
            token_fn(*count_tokens),
        ) ==> forall|k: int|
            0 <= k < chunks@.len() ==> token_fn(*count_tokens)(#[trigger] chunks@[k]@) <= MAX_TOKENS,
{
    let tree = parse_markdown_to_tree(doc_text, doc_name);
    let chunks = chunk_tree(&tree, count_tokens);
    proof {
        let tok = token_fn(*count_tokens);
        if deterministic(*count_tokens) && units_fit(doc_texts(md_blocks(doc_text@), doc_name@), tok) {
            law_chunks_of_doc_within_limit(md_blocks(doc_text@), doc_name@, tok);
            assert forall|k: int| 0 <= k < chunks@.len() implies tok(#[trigger] chunks@[k]@)
                <= MAX_TOKENS by {
                assert(strings(chunks@)[k] == chunks@[k]@);
                assert(tok(doc_chunks(md_blocks(doc_text@), doc_name@, tok)[k]) <= MAX_TOKENS);
            }
        }
    }
    chunks
}

/// Where every section of a document fits in `MAX_TOKENS` behind its
/// heading path, the document gives exactly one chunk per section that is
/// not blank, in document order: the section behind its heading path.
pub proof fn law_one_chunk_per_section_of_doc(
    blocks: Seq<(Option<u8>, Seq<char>)>,
    name: Seq<char>,
    tok: spec_fn(Seq<char>) -> int,
)
    requires
        all_fit(doc_texts(blocks, name), tok),
    ensures
        doc_chunks(blocks, name, tok) == doc_texts(blocks, name),
{
    law_one_chunk_per_section(tree_of(sections_of(blocks, name)), Seq::empty(), tok);
}

/// Chunks are bounded by `MAX_TOKENS`: where every unit that the texts of a
/// document are cut into fits (every sentence, and every list line of a
/// paragraph that holds a list), and so does an empty text, every chunk of
/// the document fits.
pub proof fn law_chunks_of_doc_within_limit(
    blocks: Seq<(Option<u8>, Seq<char>)>,
    name: Seq<char>,
    tok: spec_fn(Seq<char>) -> int,
)
    requires
        units_fit(doc_texts(blocks, name), tok),
    ensures
        forall|k: int|
            0 <= k < doc_chunks(blocks, name, tok).len() ==> tok(
                #[trigger] doc_chunks(blocks, name, tok)[k],
            ) <= MAX_TOKENS,
{
    law_chunks_within_limit(tree_of(sections_of(blocks, name)), Seq::empty(), tok);
}

/// The sections of a document named `name` whose top-level blocks are
/// `blocks` that are not blank, in document order, each as the heading path
/// above it and its content.
pub open spec fn doc_sections(blocks: Seq<(Option<u8>, Seq<char>)>, name: Seq<char>) -> Seq<
    (Seq<(u32, Seq<char>)>, Seq<char>),
> {
    node_entries(tree_of(sections_of(blocks, name)), Seq::empty())
}

/// A section whose first chunk can hold its whole heading path and first
/// paragraph: its content does not start with whitespace, the titles on
/// its path are clean, and its heading lines and first paragraph fit in
/// `MAX_TOKENS`, one by one and joined from the first.
pub open spec fn keeps_context(
    e: (Seq<(u32, Seq<char>)>, Seq<char>),
    tok: spec_fn(Seq<char>) -> int,
) -> bool {
    &&& !is_ws(e.1[0])
    &&& forall|i: int| 0 <= i < e.0.len() ==> clean_title(#[trigger] e.0[i].1)
    &&& leading_fit(path_prefix(e.0) + e.1, e.0.len() as int + 1, tok)
}

/// A document's chunks carry their context: its texts are its sections
/// behind their heading paths, its chunks come section by section, each
/// section's slices behind its heading path in document order, and
/// the first chunk of every section that `keeps_context` starts with its
/// heading path and then its first paragraph.
pub proof fn law_doc_chunks_start_with_heading_paths(
    blocks: Seq<(Option<u8>, Seq<char>)>,
    name: Seq<char>,
    tok: spec_fn(Seq<char>) -> int,
)
    ensures
        doc_texts(blocks, name) == doc_sections(blocks, name).map_values(entry_text()),
        doc_chunks(blocks, name, tok) == doc_sections(blocks, name).map_values(
            entry_slices(tok),
        ).flatten(),
        forall|k: int|
            0 <= k < doc_sections(blocks, name).len() && keeps_context(
                #[trigger] doc_sections(blocks, name)[k],
                tok,
            ) ==> {
                let e = doc_sections(blocks, name)[k];
                &&& slices_of(path_prefix(e.0) + e.1, tok).len() > 0
                &&& starts_with(
                    slices_of(path_prefix(e.0) + e.1, tok)[0],
                    path_prefix(e.0) + trim(paragraphs(e.1)[0]),
                )
            },
{
    let root = tree_of(sections_of(blocks, name));
    lemma_node_chunks_by_section(root, Seq::empty(), tok);
    lemma_node_texts_by_section(root, Seq::empty());
    lemma_entries_not_blank(root, Seq::empty());
    assert forall|k: int|
        0 <= k < doc_sections(blocks, name).len() && keeps_context(
            #[trigger] doc_sections(blocks, name)[k],
            tok,
        ) implies {
        let e = doc_sections(blocks, name)[k];
        &&& slices_of(path_prefix(e.0) + e.1, tok).len() > 0
        &&& starts_with(
            slices_of(path_prefix(e.0) + e.1, tok)[0],
            path_prefix(e.0) + trim(paragraphs(e.1)[0]),
        )
    } by {
        let e = doc_sections(blocks, name)[k];
        law_section_starts_with_heading_path(e.0, e.1, tok);
    }
}

} // verus!
