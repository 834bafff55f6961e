//! The markdown parser: comrak parses a document, and each top-level node
//! of its syntax tree is rendered back to CommonMark.

use vstd::prelude::*;
use crate::sections::{MdBlock, block_views};
use crate::text::string_of;

verus! {

/// What comrak makes of `markdown`, parsed with the given extension options
/// (tables, strikethrough, task lists, and the front matter delimiter): for
/// each top-level node of the document, in order, the level of the heading
/// it is, where it is one, and the node rendered as CommonMark.
pub uninterp spec fn comrak_blocks(
    markdown: Seq<char>,
    table: bool,
    strikethrough: bool,
    tasklist: bool,
    front_matter_delimiter: Seq<char>,
) -> Seq<(Option<u8>, Seq<char>)>;

/// The heading levels of `blocks` lie in 1..=6, where they are headings.
pub open spec fn levels_in_range(blocks: Seq<(Option<u8>, Seq<char>)>) -> bool {
    forall|i: int| 0 <= i < blocks.len() ==> ((#[trigger] blocks[i]).0 matches Some(l) ==> 1 <= l <= 6)
}

/// Parses `markdown` with `comrak::parse_document` (options from
/// `comrak::Options::default`, with the four extension options set as
/// given), and for each child of the document node reads the level of a
/// `NodeValue::Heading` and renders the node with `comrak::format_commonmark`
/// into a `Vec<u8>`, decoded by `String::from_utf8_lossy`. Claims that the
/// result is `comrak_blocks` of the arguments, which depends on nothing
/// else, and, as comrak documents of `NodeHeading::level`, that heading
/// levels lie in 1..=6. Writing into a `Vec<u8>` does not fail, so the
/// error arm is never taken.
#[verifier::external_body]
fn parse_top_blocks(
    markdown: &str,
    table: bool,
    strikethrough: bool,
    tasklist: bool,
    front_matter_delimiter: String,
) -> (blocks: Vec<MdBlock>)
    ensures
        block_views(blocks@) == comrak_blocks(
            markdown@,
            table,
            strikethrough,
            tasklist,
            front_matter_delimiter@,
        ),
        levels_in_range(block_views(blocks@)),
{
    let arena = comrak::Arena::new();
    let mut options = comrak::Options::default();
    options.extension.table = table;
    options.extension.strikethrough = strikethrough;
    options.extension.tasklist = tasklist;
    options.extension.front_matter_delimiter = Some(front_matter_delimiter);
    let mut blocks = Vec::new();
    for node in comrak::parse_document(&arena, markdown, &options).children() {
        let mut buf: Vec<u8> = Vec::new();
        comrak::format_commonmark(node, &options, &mut buf).expect("writing into a Vec cannot fail");
        let heading_level = match &node.data.borrow().value { comrak::nodes::NodeValue::Heading(h) => Some(h.level), _ => None };
        blocks.push(MdBlock { heading_level, text: String::from_utf8_lossy(&buf).into_owned() });
    }
    blocks
}

/// The top-level blocks of `markdown` as this library parses it: with
/// tables, strikethrough, task lists, and `---` front matter.
pub open spec fn md_blocks(markdown: Seq<char>) -> Seq<(Option<u8>, Seq<char>)> {
    comrak_blocks(markdown, true, true, true, seq!['-', '-', '-'])
}

/// Parses `markdown` (with tables, strikethrough, task lists and `---` front
/// matter) and returns its top-level blocks, each rendered as CommonMark.
pub fn markdown_blocks(markdown: &str) -> (blocks: Vec<MdBlock>)
    ensures
        block_views(blocks@) == md_blocks(markdown@),
        levels_in_range(block_views(blocks@)),
{
    let delimiter = vec!['-', '-', '-'];
    let front_matter = string_of(&delimiter);
    assert(front_matter@ =~= seq!['-', '-', '-']);
    parse_top_blocks(markdown, true, true, true, front_matter)
}

} // verus!
