//! Grouping a document's top-level blocks into sections, one per heading.

use vstd::prelude::*;
use crate::text::{
    is_ws, trim, chars_of, trim_chars, push_all, string_of, strip_ws, lemma_strip_add, lemma_strip_trim,
    lemma_strip_blank, lemma_strip_separators,
};
use crate::tree::{Section, SectionModel, section_views};
use crate::slicing_laws::lemma_trim_tight;

verus! {

/// A top-level block of a markdown document: the level of the heading it
/// is, where it is one, and its text rendered as CommonMark.
pub struct MdBlock {
    pub heading_level: Option<u8>,
    pub text: String,
}

pub open spec fn block_views(b: Seq<MdBlock>) -> Seq<(Option<u8>, Seq<char>)> {
    b.map_values(|x: MdBlock| (x.heading_level, x.text@))
}

/// `s` without its leading `#` and whitespace characters.
pub open spec fn trim_heading_marks(s: Seq<char>) -> Seq<char>
    decreases s.len(),
{
    if s.len() > 0 && (s[0] == '#' || is_ws(s[0])) {
        trim_heading_marks(s.drop_first())
    } else {
        s
    }
}

/// The title of a heading whose rendered text, trimmed, is `heading_text`.
pub open spec fn heading_title(heading_text: Seq<char>) -> Seq<char> {
    trim(trim_heading_marks(heading_text))
}

/// `# {file}`, a blank line, and `content`.
pub open spec fn doc_header(file: Seq<char>, content: Seq<char>) -> Seq<char> {
    seq!['#', ' '] + file + seq!['\n', '\n'] + content
}

/// Adds the text gathered since the last heading, trimmed, to the last
/// section, behind a blank line where that section has content already;
/// nothing where it is blank.
pub open spec fn flush(secs: Seq<SectionModel>, cur: Seq<char>, file: Seq<char>) -> Seq<SectionModel> {
    let t = trim(cur);
    if t.len() == 0 {
        secs
    } else if secs.len() == 0 {
        seq![SectionModel { depth: 0, title: file, content: doc_header(file, t) }]
    } else {
        let last = secs.last();
        secs.update(
            secs.len() - 1,
            SectionModel {
                depth: last.depth,
                title: last.title,
                content: if last.content.len() == 0 {
                    t
                } else {
                    last.content + seq!['\n', '\n'] + t
                },
            },
        )
    }
}

/// The sections so far, and the text gathered since the last heading.
pub type GroupState = (Seq<SectionModel>, Seq<char>);

/// A heading block closes the text gathered so far and opens a section at
/// its level, titled by its text; any other block adds its text.
pub open spec fn block_step(b: (Option<u8>, Seq<char>), file: Seq<char>, st: GroupState) -> GroupState {
    match b.0 {
        Some(level) => {
            let ht = trim(b.1);
            (
                flush(st.0, st.1, file).push(
                    SectionModel { depth: level as u32, title: heading_title(ht), content: ht },
                ),
                Seq::empty(),
            )
        },
        None => (st.0, st.1 + b.1),
    }
}

pub open spec fn process_blocks(
    blocks: Seq<(Option<u8>, Seq<char>)>,
    file: Seq<char>,
    st: GroupState,
) -> GroupState
    decreases blocks.len(),
{
    if blocks.len() == 0 {
        st
    } else {
        process_blocks(blocks.drop_first(), file, block_step(blocks[0], file, st))
    }
}

/// The sections of a document named `file`: a first one at depth 0 titled
/// by the name, holding the text before the first heading (behind a
/// `# {file}` line where there is any), then one per heading.
pub open spec fn sections_of(blocks: Seq<(Option<u8>, Seq<char>)>, file: Seq<char>) -> Seq<SectionModel> {
    let st = process_blocks(
        blocks,
        file,
        (seq![SectionModel { depth: 0, title: file, content: Seq::empty() }], Seq::empty()),
    );
    let secs = flush(st.0, st.1, file);
    if secs[0].content.len() > 0 {
        secs.update(
            0,
            SectionModel {
                depth: secs[0].depth,
                title: secs[0].title,
                content: doc_header(file, secs[0].content),
            },
        )
    } else {
        secs
    }
}

fn doc_header_chars(file: &Vec<char>, content: &Vec<char>) -> (r: Vec<char>)
    ensures
        r@ == doc_header(file@, content@),
{
    let mut r: Vec<char> = Vec::new();
    r.push('#');
    r.push(' ');
    push_all(&mut r, file);
    r.push('\n');
    r.push('\n');
    push_all(&mut r, content);
    assert(r@ =~= doc_header(file@, content@));
    r
}

/// Adds the gathered text `content` to the sections, as `flush` says, and
/// empties it.
fn flush_content(content: &mut Vec<char>, secs: &mut Vec<Section>, file_name: &Vec<char>)
    ensures
        section_views(final(secs)@) == flush(section_views(old(secs)@), old(content)@, file_name@),
        final(content)@.len() == 0,
        final(secs)@.len() >= old(secs)@.len(),
{
    let ghost sv = section_views(secs@);
    let trimmed = trim_chars(content);
    if trimmed.len() > 0 {
        let n: usize = secs.len();
        if n > 0 {
            let last = &secs[n - 1];
            let mut c = chars_of(last.content.as_str());
            if c.len() > 0 {
                c.push('\n');
                c.push('\n');
            }
            push_all(&mut c, &trimmed);
            let updated = Section {
                depth: last.depth,
                title: last.title.clone(),
                content: string_of(&c),
            };
            let ghost lastv = sv.last();
            assert(lastv == secs@[n - 1]@);
            let ghost newv = SectionModel {
                depth: lastv.depth,
                title: lastv.title,
                content: if lastv.content.len() == 0 {
                    trim(old(content)@)
                } else {
                    lastv.content + seq!['\n', '\n'] + trim(old(content)@)
                },
            };
            assert(c@ =~= newv.content);
            secs.set(n - 1, updated);
            assert(secs@[n - 1]@ == newv);
            assert(section_views(secs@) =~= sv.update(n - 1, newv));
        } else {
            let header = doc_header_chars(file_name, &trimmed);
            secs.push(
                Section { depth: 0, title: string_of(file_name), content: string_of(&header) },
            );
            assert(section_views(secs@) =~= flush(sv, old(content)@, file_name@));
        }
    }
    content.clear();
}

/// `s` without its leading `#` and whitespace characters.
fn trim_heading_marks_chars(s: &Vec<char>) -> (r: Vec<char>)
    ensures
        r@ == trim_heading_marks(s@),
{
    let n: usize = s.len();
    let mut a: usize = 0;
    assert(s@.skip(0) =~= s@);
    while a < n && (s[a] == '#' || crate::text::char_is_ws(s[a]))
        invariant
            a <= n == s@.len(),
            trim_heading_marks(s@) == trim_heading_marks(s@.skip(a as int)),
        decreases n - a,
    {
        assert(s@.skip(a as int).drop_first() =~= s@.skip(a + 1));
        a += 1;
    }
    assert(s@.skip(a as int) =~= s@.subrange(a as int, n as int));
    crate::text::copy_range(s, a, n)
}

/// Groups `blocks` into the sections of a document named `file_name`, as
/// `sections_of` says.
pub fn sections_from_blocks(blocks: &Vec<MdBlock>, file_name: &str) -> (r: Vec<Section>)
    ensures
        section_views(r@) == sections_of(block_views(blocks@), file_name@),
        r@.len() > 0,
{
    let ghost bv = block_views(blocks@);
    let file = chars_of(file_name);
    let mut sections: Vec<Section> = Vec::new();
    sections.push(Section { depth: 0, title: string_of(&file), content: String::new() });
    let mut current: Vec<char> = Vec::new();
    let ghost st0 = (
        seq![SectionModel { depth: 0, title: file_name@, content: Seq::empty() }],
        Seq::<char>::empty(),
    );
    assert(section_views(sections@) =~= st0.0);
    assert(bv.skip(0) =~= bv);
    let mut i: usize = 0;
    while i < blocks.len()
        invariant
            i <= blocks@.len(),
            bv == block_views(blocks@),
            file@ == file_name@,
            sections@.len() > 0,
            process_blocks(bv.skip(i as int), file@, (section_views(sections@), current@))
                == process_blocks(bv, file@, st0),
        decreases blocks@.len() - i,
    {
        let ghost st = (section_views(sections@), current@);
        assert(bv.skip(i as int).drop_first() =~= bv.skip(i + 1));
        assert(bv.skip(i as int)[0] == (blocks@[i as int].heading_level, blocks@[i as int].text@));
        let block = &blocks[i];
        let text = chars_of(block.text.as_str());
        match block.heading_level {
            Some(level) => {
                flush_content(&mut current, &mut sections, &file);
                let heading_text = trim_chars(&text);
                let marks_gone = trim_heading_marks_chars(&heading_text);
                let title = trim_chars(&marks_gone);
                let ghost before = section_views(sections@);
                sections.push(
                    Section {
                        depth: level as u32,
                        title: string_of(&title),
                        content: string_of(&heading_text),
                    },
                );
                assert(section_views(sections@) =~= before.push(
                    SectionModel {
                        depth: level as u32,
                        title: heading_title(heading_text@),
                        content: heading_text@,
                    },
                ));
                assert(current@ =~= Seq::<char>::empty());
            },
            None => {
                push_all(&mut current, &text);
            },
        }
        assert((section_views(sections@), current@) == block_step(bv[i as int], file@, st));
        i += 1;
    }
    assert(bv.skip(blocks@.len() as int) =~= Seq::<(Option<u8>, Seq<char>)>::empty());
    flush_content(&mut current, &mut sections, &file);
    let ghost secs = section_views(sections@);
    let first = &sections[0];
    let first_content = chars_of(first.content.as_str());
    if first_content.len() > 0 {
        let header = doc_header_chars(&file, &first_content);
        let updated = Section { depth: first.depth, title: first.title.clone(), content: string_of(&header) };
        sections.set(0, updated);
        assert(section_views(sections@) =~= secs.update(
            0,
            SectionModel { depth: secs[0].depth, title: secs[0].title, content: doc_header(file@, secs[0].content) },
        ));
    }
    sections
}

/// The depth and title of each section.
pub open spec fn outline(secs: Seq<SectionModel>) -> Seq<(u32, Seq<char>)> {
    secs.map_values(|x: SectionModel| (x.depth, x.title))
}

/// The depth and title of the section that each heading block opens, in
/// order.
pub open spec fn heading_entries(blocks: Seq<(Option<u8>, Seq<char>)>) -> Seq<(u32, Seq<char>)>
    decreases blocks.len(),
{
    if blocks.len() == 0 {
        Seq::empty()
    } else {
        let rest = heading_entries(blocks.drop_first());
        match blocks[0].0 {
            Some(level) => seq![(level as u32, heading_title(trim(blocks[0].1)))] + rest,
            None => rest,
        }
    }
}

proof fn lemma_flush_outline(secs: Seq<SectionModel>, cur: Seq<char>, file: Seq<char>)
    requires
        secs.len() > 0,
    ensures
        outline(flush(secs, cur, file)) == outline(secs),
{
    assert(outline(flush(secs, cur, file)) =~= outline(secs));
}

proof fn lemma_process_blocks_outline(
    blocks: Seq<(Option<u8>, Seq<char>)>,
    file: Seq<char>,
    st: GroupState,
)
    requires
        st.0.len() > 0,
    ensures
        process_blocks(blocks, file, st).0.len() > 0,
        outline(process_blocks(blocks, file, st).0) == outline(st.0) + heading_entries(blocks),
    decreases blocks.len(),
{
    if blocks.len() == 0 {
        assert(outline(st.0) + heading_entries(blocks) =~= outline(st.0));
    } else {
        let st1 = block_step(blocks[0], file, st);
        lemma_flush_outline(st.0, st.1, file);
        match blocks[0].0 {
            Some(level) => {
                let f = flush(st.0, st.1, file);
                let ht = trim(blocks[0].1);
                let new = SectionModel { depth: level as u32, title: heading_title(ht), content: ht };
                assert(outline(f.push(new)) =~= outline(f).push((level as u32, heading_title(ht))));
            },
            None => {},
        }
        lemma_process_blocks_outline(blocks.drop_first(), file, st1);
        assert(outline(process_blocks(blocks, file, st).0) =~= outline(st.0) + heading_entries(
            blocks,
        ));
    }
}

/// A document has one section per heading, in order, each at the heading's
/// level and titled by its text without the `#` marks, after a first
/// section at depth 0 titled by the document's name.
pub proof fn law_one_section_per_heading(blocks: Seq<(Option<u8>, Seq<char>)>, file: Seq<char>)
    ensures
        outline(sections_of(blocks, file)) == seq![(0u32, file)] + heading_entries(blocks),
{
    let st0 = (seq![SectionModel { depth: 0, title: file, content: Seq::empty() }], Seq::<char>::empty());
    lemma_process_blocks_outline(blocks, file, st0);
    let st = process_blocks(blocks, file, st0);
    lemma_flush_outline(st.0, st.1, file);
    let secs = flush(st.0, st.1, file);
    assert(outline(st0.0) =~= seq![(0u32, file)]);
    if secs[0].content.len() > 0 {
        let u = secs.update(
            0,
            SectionModel { depth: secs[0].depth, title: secs[0].title, content: doc_header(file, secs[0].content) },
        );
        assert(outline(u) =~= outline(secs));
    }
}

proof fn lemma_trim_marks_before_title(j: nat, t: Seq<char>)
    requires
        t.len() > 0 ==> t[0] != '#' && !is_ws(t[0]),
    ensures
        trim_heading_marks(Seq::new(j, |i: int| '#') + seq![' '] + t) == t,
    decreases j,
{
    let h = Seq::new(j, |i: int| '#') + seq![' '] + t;
    assert(trim_heading_marks(t) == t);
    if j == 0 {
        assert(h[0] == ' ');
        assert(is_ws(h[0]));
        assert(h.drop_first() =~= t);
    } else {
        assert(h[0] == '#');
        assert(h.drop_first() =~= Seq::new((j - 1) as nat, |i: int| '#') + seq![' '] + t);
        lemma_trim_marks_before_title((j - 1) as nat, t);
    }
}

/// A heading's title is its text without its `#` marks and the space after
/// them, and nothing else: for a title `t` with no whitespace at either end
/// that does not start with `#`, a heading of `k` marks, a space and `t` is
/// titled `t`.
pub proof fn law_heading_title_drops_only_marks(k: nat, t: Seq<char>)
    requires
        k >= 1,
        t.len() > 0 ==> t[0] != '#' && !is_ws(t[0]) && !is_ws(t.last()),
    ensures
        heading_title(Seq::new(k, |i: int| '#') + seq![' '] + t) == t,
{
    lemma_trim_marks_before_title(k, t);
    lemma_trim_tight(t);
}

proof fn lemma_flush_keeps(secs: Seq<SectionModel>, cur: Seq<char>, file: Seq<char>)
    requires
        secs.len() > 0,
    ensures
        flush(secs, cur, file).len() == secs.len(),
        forall|i: int| 0 <= i < secs.len() - 1 ==> #[trigger] flush(secs, cur, file)[i] == secs[i],
{
}

/// Processing blocks only ever changes the last section it starts from and
/// adds sections after it.
proof fn lemma_process_blocks_keeps(blocks: Seq<(Option<u8>, Seq<char>)>, file: Seq<char>, st: GroupState)
    requires
        st.0.len() > 0,
    ensures
        process_blocks(blocks, file, st).0.len() >= st.0.len(),
        forall|i: int|
            0 <= i < st.0.len() - 1 ==> #[trigger] process_blocks(blocks, file, st).0[i] == st.0[i],
    decreases blocks.len(),
{
    if blocks.len() > 0 {
        let st1 = block_step(blocks[0], file, st);
        lemma_flush_keeps(st.0, st.1, file);
        assert(st1.0.len() >= st.0.len());
        assert(forall|i: int| 0 <= i < st.0.len() - 1 ==> #[trigger] st1.0[i] == st.0[i]);
        lemma_process_blocks_keeps(blocks.drop_first(), file, st1);
    }
}

proof fn lemma_process_blocks_concat(
    a: Seq<(Option<u8>, Seq<char>)>,
    b: Seq<(Option<u8>, Seq<char>)>,
    file: Seq<char>,
    st: GroupState,
)
    ensures
        process_blocks(a + b, file, st) == process_blocks(b, file, process_blocks(a, file, st)),
    decreases a.len(),
{
    if a.len() == 0 {
        assert(a + b =~= b);
    } else {
        assert((a + b).drop_first() =~= a.drop_first() + b);
        assert((a + b)[0] == a[0]);
        lemma_process_blocks_concat(a.drop_first(), b, file, block_step(a[0], file, st));
    }
}

/// The texts of some blocks, one after the other.
pub open spec fn blocks_text(blocks: Seq<(Option<u8>, Seq<char>)>) -> Seq<char> {
    blocks.map_values(|b: (Option<u8>, Seq<char>)| b.1).flatten()
}

proof fn lemma_blocks_text_first(blocks: Seq<(Option<u8>, Seq<char>)>)
    requires
        blocks.len() > 0,
    ensures
        blocks_text(blocks) == blocks[0].1 + blocks_text(blocks.drop_first()),
{
    let f = |b: (Option<u8>, Seq<char>)| b.1;
    assert(blocks.map_values(f).drop_first() =~= blocks.drop_first().map_values(f));
}

proof fn lemma_process_plain_blocks(blocks: Seq<(Option<u8>, Seq<char>)>, file: Seq<char>, st: GroupState)
    requires
        forall|i: int| 0 <= i < blocks.len() ==> (#[trigger] blocks[i]).0 is None,
    ensures
        process_blocks(blocks, file, st) == (st.0, st.1 + blocks_text(blocks)),
    decreases blocks.len(),
{
    if blocks.len() == 0 {
        assert(blocks_text(blocks) =~= Seq::<char>::empty());
        assert(st.1 + blocks_text(blocks) =~= st.1);
    } else {
        assert(blocks[0].0 is None);
        lemma_blocks_text_first(blocks);
        assert(forall|i: int| 0 <= i < blocks.drop_first().len() ==> blocks.drop_first()[i] == blocks[i + 1]);
        lemma_process_plain_blocks(blocks.drop_first(), file, (st.0, st.1 + blocks[0].1));
        assert(st.1 + blocks[0].1 + blocks_text(blocks.drop_first()) =~= st.1 + blocks_text(blocks));
    }
}

/// A heading's section holds the text under it: where a heading block `h`
/// at level `level` is followed by blocks `mid` that are not headings, then
/// by a heading or the end, the section it opens (the one after the
/// document's first section and those of the headings before it) is at its
/// level, titled by its text, and holds the heading, a blank line and the
/// text of `mid`, each trimmed (the text of `mid` alone where the heading
/// is blank, and the heading alone where that text is blank).
pub proof fn law_heading_section_holds_following_text(
    pre: Seq<(Option<u8>, Seq<char>)>,
    level: u8,
    h: Seq<char>,
    mid: Seq<(Option<u8>, Seq<char>)>,
    post: Seq<(Option<u8>, Seq<char>)>,
    file: Seq<char>,
)
    requires
        forall|i: int| 0 <= i < mid.len() ==> (#[trigger] mid[i]).0 is None,
        post.len() > 0 ==> post[0].0 is Some,
    ensures
        ({
            let secs = sections_of(pre + seq![(Some(level), h)] + mid + post, file);
            let k: int = heading_entries(pre).len() as int + 1;
            let t = trim(blocks_text(mid));
            &&& k < secs.len()
            &&& secs[k].depth == level as u32
            &&& secs[k].title == heading_title(trim(h))
            &&& secs[k].content == if t.len() == 0 {
                trim(h)
            } else if trim(h).len() == 0 {
                t
            } else {
                trim(h) + seq!['\n', '\n'] + t
            }
        }),
{
    let hb = (Some(level), h);
    let blocks = pre + seq![hb] + mid + post;
    let st0 = (seq![SectionModel { depth: 0, title: file, content: Seq::empty() }], Seq::<char>::empty());
    let k: int = heading_entries(pre).len() as int + 1;
    lemma_process_blocks_concat(pre + seq![hb] + mid, post, file, st0);
    lemma_process_blocks_concat(pre + seq![hb], mid, file, st0);
    lemma_process_blocks_concat(pre, seq![hb], file, st0);
    let sta = process_blocks(pre, file, st0);
    lemma_process_blocks_outline(pre, file, st0);
    assert(outline(sta.0).len() == sta.0.len());
    assert(sta.0.len() == k);
    assert(seq![hb].drop_first() =~= Seq::<(Option<u8>, Seq<char>)>::empty());
    let stb = block_step(hb, file, sta);
    assert(seq![hb][0] == hb);
    assert(process_blocks(Seq::<(Option<u8>, Seq<char>)>::empty(), file, stb) == stb);
    assert(process_blocks(seq![hb], file, sta) == stb);
    lemma_flush_keeps(sta.0, sta.1, file);
    assert(stb.0.len() == k + 1);
    assert(stb.0[k].content == trim(h));
    lemma_process_plain_blocks(mid, file, stb);
    let stc = process_blocks(mid, file, stb);
    assert(stc == (stb.0, stb.1 + blocks_text(mid)));
    assert(stb.1 + blocks_text(mid) =~= blocks_text(mid));
    let fc = flush(stc.0, stc.1, file);
    lemma_flush_keeps(stc.0, stc.1, file);
    assert(fc[k].depth == level as u32);
    assert(fc[k].title == heading_title(trim(h)));
    let st = process_blocks(blocks, file, st0);
    if post.len() == 0 {
        assert(mid + post =~= mid);
        assert(pre + seq![hb] + mid + post =~= pre + seq![hb] + mid);
        assert(st == stc);
    } else {
        let std = block_step(post[0], file, stc);
        assert(std.0 == fc.push(std.0.last()));
        lemma_process_blocks_keeps(post.drop_first(), file, std);
        assert(process_blocks(post, file, stc) == process_blocks(post.drop_first(), file, std));
        assert(st.0[k] == fc[k]);
        assert(st.0.len() >= k + 2);
        lemma_flush_keeps(st.0, st.1, file);
    }
}

/// The contents of some sections, one per section.
pub open spec fn section_contents(secs: Seq<SectionModel>) -> Seq<Seq<char>> {
    secs.map_values(|x: SectionModel| x.content)
}

/// The text of the blocks before the first heading.
pub open spec fn intro_text(blocks: Seq<(Option<u8>, Seq<char>)>) -> Seq<char>
    decreases blocks.len(),
{
    if blocks.len() == 0 || blocks[0].0 is Some {
        Seq::empty()
    } else {
        blocks[0].1 + intro_text(blocks.drop_first())
    }
}

proof fn lemma_contents_push(secs: Seq<SectionModel>, x: SectionModel)
    ensures
        strip_ws(section_contents(secs.push(x)).flatten()) == strip_ws(section_contents(secs).flatten())
            + strip_ws(x.content),
{
    assert(section_contents(secs.push(x)) =~= section_contents(secs).push(x.content));
    section_contents(secs).lemma_flatten_push(x.content);
    lemma_strip_add(section_contents(secs).flatten(), x.content);
}

proof fn lemma_flush_strip(secs: Seq<SectionModel>, cur: Seq<char>, file: Seq<char>)
    requires
        secs.len() > 0,
    ensures
        strip_ws(section_contents(flush(secs, cur, file)).flatten()) == strip_ws(
            section_contents(secs).flatten(),
        ) + strip_ws(cur),
{
    let t = trim(cur);
    lemma_strip_trim(cur);
    lemma_strip_separators();
    if t.len() == 0 {
        lemma_strip_blank(cur);
        assert(strip_ws(section_contents(secs).flatten()) + strip_ws(cur) =~= strip_ws(
            section_contents(secs).flatten(),
        ));
    } else {
        let init = secs.drop_last();
        let last = secs.last();
        let f = flush(secs, cur, file);
        assert(secs =~= init.push(last));
        assert(f =~= init.push(f.last()));
        lemma_contents_push(init, last);
        lemma_contents_push(init, f.last());
        if last.content.len() == 0 {
            assert(last.content =~= Seq::<char>::empty());
            assert(strip_ws(last.content) =~= Seq::<char>::empty());
        } else {
            lemma_strip_add(last.content + seq!['\n', '\n'], t);
            lemma_strip_add(last.content, seq!['\n', '\n']);
        }
        assert(strip_ws(f.last().content) == strip_ws(last.content) + strip_ws(t));
        assert(strip_ws(section_contents(f).flatten()) =~= strip_ws(section_contents(secs).flatten())
            + strip_ws(cur));
    }
}

proof fn lemma_process_blocks_strip(blocks: Seq<(Option<u8>, Seq<char>)>, file: Seq<char>, st: GroupState)
    requires
        st.0.len() > 0,
    ensures
        strip_ws(section_contents(process_blocks(blocks, file, st).0).flatten()) + strip_ws(
            process_blocks(blocks, file, st).1,
        ) == strip_ws(section_contents(st.0).flatten()) + strip_ws(st.1) + strip_ws(
            blocks_text(blocks),
        ),
    decreases blocks.len(),
{
    lemma_strip_separators();
    if blocks.len() == 0 {
        assert(blocks_text(blocks) =~= Seq::<char>::empty());
        assert(strip_ws(section_contents(st.0).flatten()) + strip_ws(st.1) + strip_ws(
            blocks_text(blocks),
        ) =~= strip_ws(section_contents(st.0).flatten()) + strip_ws(st.1));
    } else {
        let b = blocks[0];
        let st1 = block_step(b, file, st);
        lemma_blocks_text_first(blocks);
        lemma_strip_add(b.1, blocks_text(blocks.drop_first()));
        match b.0 {
            Some(level) => {
                let fl = flush(st.0, st.1, file);
                lemma_flush_strip(st.0, st.1, file);
                lemma_flush_keeps(st.0, st.1, file);
                lemma_contents_push(fl, st1.0.last());
                assert(st1.0 =~= fl.push(st1.0.last()));
                lemma_strip_trim(b.1);
                assert(strip_ws(section_contents(st1.0).flatten()) + strip_ws(st1.1) =~= strip_ws(
                    section_contents(st.0).flatten(),
                ) + strip_ws(st.1) + strip_ws(b.1));
            },
            None => {
                lemma_strip_add(st.1, b.1);
                assert(strip_ws(section_contents(st1.0).flatten()) + strip_ws(st1.1) =~= strip_ws(
                    section_contents(st.0).flatten(),
                ) + strip_ws(st.1) + strip_ws(b.1));
            },
        }
        lemma_process_blocks_strip(blocks.drop_first(), file, st1);
        assert(strip_ws(section_contents(st.0).flatten()) + strip_ws(st.1) + strip_ws(blocks_text(blocks))
            =~= strip_ws(section_contents(st.0).flatten()) + strip_ws(st.1) + strip_ws(b.1) + strip_ws(
            blocks_text(blocks.drop_first()),
        ));
    }
}

proof fn lemma_intro_section(blocks: Seq<(Option<u8>, Seq<char>)>, file: Seq<char>, cur: Seq<char>)
    ensures
        ({
            let st = process_blocks(
                blocks,
                file,
                (seq![SectionModel { depth: 0, title: file, content: Seq::empty() }], cur),
            );
            let f = flush(st.0, st.1, file);
            &&& f.len() > 0
            &&& f[0] == SectionModel { depth: 0, title: file, content: trim(cur + intro_text(blocks)) }
        }),
    decreases blocks.len(),
{
    let root0 = SectionModel { depth: 0, title: file, content: Seq::empty() };
    let st = (seq![root0], cur);
    let f0 = flush(seq![root0], cur, file);
    assert(f0.len() == 1);
    if trim(cur).len() == 0 {
        assert(trim(cur) =~= Seq::<char>::empty());
    }
    assert(f0[0] == SectionModel { depth: 0, title: file, content: trim(cur) });
    if blocks.len() == 0 {
        assert(cur + intro_text(blocks) =~= cur);
    } else {
        let st1 = block_step(blocks[0], file, st);
        match blocks[0].0 {
            Some(level) => {
                assert(cur + intro_text(blocks) =~= cur);
                assert(st1.0.len() == 2);
                assert(st1.0[0] == f0[0]);
                lemma_process_blocks_keeps(blocks.drop_first(), file, st1);
                let stn = process_blocks(blocks.drop_first(), file, st1);
                lemma_flush_keeps(stn.0, stn.1, file);
            },
            None => {
                lemma_intro_section(blocks.drop_first(), file, cur + blocks[0].1);
                assert(cur + blocks[0].1 + intro_text(blocks.drop_first()) =~= cur + intro_text(blocks));
            },
        }
    }
}

/// Grouping loses no text: the non-whitespace characters of the sections'
/// contents, in order, are those of every block's text, heading or not,
/// behind those of a `# {file}` line where the document has text before its
/// first heading; and the first section holds that text, trimmed, behind
/// that line.
pub proof fn law_sections_keep_every_block(blocks: Seq<(Option<u8>, Seq<char>)>, file: Seq<char>)
    ensures
        strip_ws(section_contents(sections_of(blocks, file)).flatten()) == (if trim(
            intro_text(blocks),
        ).len() > 0 {
            strip_ws(seq!['#', ' '] + file)
        } else {
            Seq::empty()
        }) + strip_ws(blocks_text(blocks)),
        sections_of(blocks, file)[0].content == if trim(intro_text(blocks)).len() > 0 {
            seq!['#', ' '] + file + seq!['\n', '\n'] + trim(intro_text(blocks))
        } else {
            Seq::empty()
        },
{
    let root0 = SectionModel { depth: 0, title: file, content: Seq::empty() };
    let st0 = (seq![root0], Seq::<char>::empty());
    let st = process_blocks(blocks, file, st0);
    lemma_process_blocks_strip(blocks, file, st0);
    lemma_process_blocks_keeps(blocks, file, st0);
    lemma_flush_strip(st.0, st.1, file);
    lemma_intro_section(blocks, file, Seq::empty());
    assert(Seq::<char>::empty() + intro_text(blocks) =~= intro_text(blocks));
    lemma_strip_separators();
    assert(section_contents(st0.0) =~= seq![Seq::<char>::empty()]);
    section_contents(st0.0).lemma_flatten_one_element();
    let secs = flush(st.0, st.1, file);
    let c = section_contents(secs);
    assert(strip_ws(c.flatten()) =~= strip_ws(blocks_text(blocks)));
    let c0 = secs[0].content;
    assert(c0 == trim(intro_text(blocks)));
    assert(c.len() > 0);
    assert(c.flatten() == c[0] + c.drop_first().flatten());
    lemma_strip_add(c[0], c.drop_first().flatten());
    if c0.len() > 0 {
        let u = secs.update(
            0,
            SectionModel { depth: secs[0].depth, title: secs[0].title, content: doc_header(file, c0) },
        );
        let cu = section_contents(u);
        assert(cu.drop_first() =~= c.drop_first());
        assert(cu.flatten() == cu[0] + cu.drop_first().flatten());
        lemma_strip_add(cu[0], cu.drop_first().flatten());
        lemma_strip_add(seq!['#', ' '] + file + seq!['\n', '\n'], c0);
        lemma_strip_add(seq!['#', ' '] + file, seq!['\n', '\n']);
        assert(strip_ws(cu.flatten()) =~= strip_ws(seq!['#', ' '] + file) + strip_ws(blocks_text(blocks)));
    } else {
        assert(c0 =~= Seq::<char>::empty());
        assert(Seq::<char>::empty() + strip_ws(blocks_text(blocks)) =~= strip_ws(blocks_text(blocks)));
    }
}

} // verus!
