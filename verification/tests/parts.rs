use lm_orchestrator::markdown::markdown_blocks;
use lm_orchestrator::sections::{sections_from_blocks, MdBlock};
use lm_orchestrator::slicing::{split_into_sub_units, split_text_into_slices};
use lm_orchestrator::{split_md_blocks, split_md_doc};
use lm_orchestrator::text::{lines_of, split_inclusive_chars, split_paragraphs, trim_chars};
use lm_orchestrator::tree::{build_tree, build_tree_recursive, Section, TreeNode};
use lm_orchestrator::{MAX_TOKENS, MIN_TOKENS};

fn word_count(text: &str) -> usize {
    text.split_whitespace().count()
}

fn chars(s: &str) -> Vec<char> {
    s.chars().collect()
}

fn text_of(v: &[char]) -> String {
    v.iter().collect()
}

fn texts(v: &[Vec<char>]) -> Vec<String> {
    v.iter().map(|x| text_of(x)).collect()
}

fn words(prefix: &str, n: usize) -> String {
    (0..n).map(|i| format!("{}{}", prefix, i)).collect::<Vec<_>>().join(" ")
}

/// `n` sentences of ten words each, on one line.
fn sentences(prefix: &str, n: usize) -> Vec<String> {
    (0..n).map(|i| format!("{}.", words(&format!("{}{}w", prefix, i), 10))).collect()
}

fn non_ws(s: &str) -> String {
    s.chars().filter(|c| !c.is_whitespace()).collect()
}

#[test]
fn token_limits_are_those_of_the_docs() {
    assert_eq!(MIN_TOKENS, 128);
    assert_eq!(MAX_TOKENS, 254);
}

#[test]
fn trim_removes_unicode_whitespace() {
    let t = trim_chars(&chars("\u{3000}\t a b \u{a0}\n"));
    assert_eq!(text_of(&t), "a b");
    assert_eq!(text_of(&trim_chars(&chars(" \n "))), "");
}

#[test]
fn paragraphs_are_cut_at_leftmost_blank_lines() {
    let p = split_paragraphs(&chars("a\n\n\nb\n\nc"));
    assert_eq!(texts(&p), vec!["a", "\nb", "c"]);
    assert_eq!(texts(&split_paragraphs(&chars(""))), vec![""]);
}

#[test]
fn lines_drop_their_terminators() {
    let l = lines_of(&chars("a\r\nb\n\nc\r"));
    assert_eq!(texts(&l), vec!["a", "b", "", "c\r"]);
    assert_eq!(texts(&lines_of(&chars("x\n"))), vec!["x"]);
    assert!(lines_of(&chars("")).is_empty());
}

#[test]
fn sub_units_of_a_list_are_its_lines() {
    let u = split_into_sub_units(&chars("- one\n   \n- two. still two\n1. three"));
    assert_eq!(texts(&u), vec!["- one", "- two. still two", "1. three"]);
}

#[test]
fn sub_units_of_prose_are_its_sentences() {
    let u = split_into_sub_units(&chars("One. Two!  Three? four"));
    assert_eq!(texts(&u), vec!["One.", "Two!", "Three?", "four"]);
    let v = split_into_sub_units(&chars("Ends here.\n"));
    assert_eq!(texts(&v), vec!["Ends here."]);
}

#[test]
fn fitting_text_is_one_slice() {
    let s = split_text_into_slices(&chars("a b\n\nc"), &word_count);
    assert_eq!(s, vec!["a b\n\nc".to_string()]);
    assert!(split_text_into_slices(&chars(""), &word_count).is_empty());
}

#[test]
fn slices_flush_when_full() {
    let paras: Vec<String> = (0..5).map(|i| words(&format!("p{}w", i), 100)).collect();
    let text = paras.join("\n\n");
    let s = split_text_into_slices(&chars(&text), &word_count);
    assert_eq!(s.len(), 3);
    assert_eq!(s[0], format!("{}\n\n{}", paras[0], paras[1]));
    assert_eq!(s[1], format!("{}\n\n{}", paras[2], paras[3]));
    assert_eq!(s[2], paras[4]);
    for slice in &s[..s.len() - 1] {
        assert!(word_count(slice) >= MIN_TOKENS);
    }
}

#[test]
fn oversized_paragraph_is_cut_by_sentences() {
    let sents = sentences("s", 30);
    let text = sents.join(" ");
    let s = split_text_into_slices(&chars(&text), &word_count);
    assert_eq!(s.len(), 2);
    assert_eq!(s[0], sents[..25].join("\n"));
    assert_eq!(s[1], sents[25..].join("\n"));
}

#[test]
fn paragraph_that_does_not_fit_goes_in_by_sentences() {
    let a = words("a", 100);
    let sents = sentences("b", 20);
    let text = format!("{}\n\n{}", a, sents.join(" "));
    let s = split_text_into_slices(&chars(&text), &word_count);
    assert_eq!(s.len(), 2);
    assert_eq!(s[0], format!("{}\n{}", a, sents[..15].join("\n")));
    assert_eq!(s[1], sents[15..].join("\n"));
}

#[test]
fn unit_that_does_not_fit_starts_a_new_slice() {
    let a = words("a", 100);
    let b = words("b", 200);
    let text = format!("{}\n\n{}", a, b);
    let s = split_text_into_slices(&chars(&text), &word_count);
    assert_eq!(s, vec![a.clone(), b.clone()]);
    for slice in &s {
        assert!(word_count(slice) <= MAX_TOKENS);
    }
}

#[test]
fn only_a_single_oversized_unit_goes_over_the_limit() {
    let a = words("a", 100);
    let big = words("g", 300);
    let text = format!("{}\n\n{}", a, big);
    let s = split_text_into_slices(&chars(&text), &word_count);
    assert_eq!(s, vec![a.clone(), big.clone()]);
}

#[test]
fn prose_starting_with_a_digit_is_cut_by_sentences() {
    let u = split_into_sub_units(&chars("3 cats. Dogs."));
    assert_eq!(texts(&u), vec!["3 cats.", "Dogs."]);
    let v = split_into_sub_units(&chars("2024 was a year. It ended."));
    assert_eq!(texts(&v), vec!["2024 was a year.", "It ended."]);
}

#[test]
fn ordered_list_markers_make_a_list() {
    let u = split_into_sub_units(&chars("1) first. still first\n10. tenth\n2.\nnot a marker"));
    assert_eq!(texts(&u), vec!["1) first. still first", "10. tenth", "2.", "not a marker"]);
    let v = split_into_sub_units(&chars("1234567890. too many digits. Yes."));
    assert_eq!(texts(&v), vec!["1234567890.", "too many digits.", "Yes."]);
}

#[test]
fn tree_building_past_the_end_stops_at_once() {
    let secs = vec![section(0, "doc", "")];
    let mut children: Vec<TreeNode> = vec![];
    assert_eq!(build_tree_recursive(&secs, 5, 0, &mut children), 5);
    assert!(children.is_empty());
}

#[test]
fn slices_keep_the_text() {
    let sents = sentences("k", 40);
    let text = format!("  intro  \n\n{}\n\n- x\n- y\n\n\n tail ", sents.join(" "));
    let s = split_text_into_slices(&chars(&text), &word_count);
    assert!(s.len() > 1);
    assert_eq!(non_ws(&s.concat()), non_ws(&text));
}

fn section(depth: u32, title: &str, content: &str) -> Section {
    Section { depth, title: title.to_string(), content: content.to_string() }
}

fn preorder(n: &TreeNode, out: &mut Vec<(u32, String, Option<String>)>) {
    out.push((n.heading.depth, n.heading.title.clone(), n.content.clone()));
    for c in &n.children {
        preorder(c, out);
    }
}

#[test]
fn tree_nests_sections_under_shallower_headings() {
    let secs = vec![
        section(0, "doc", ""),
        section(1, "A", "# A"),
        section(2, "B", "## B"),
        section(3, "C", "### C"),
        section(2, "D", "## D"),
        section(1, "E", "# E"),
    ];
    let root = build_tree(&secs);
    assert_eq!(root.heading.title, "doc");
    assert_eq!(root.content, None);
    assert_eq!(root.children.len(), 2);
    let a = &root.children[0];
    assert_eq!(a.heading.title, "A");
    assert_eq!(a.children.len(), 2);
    assert_eq!(a.children[0].heading.title, "B");
    assert_eq!(a.children[0].children[0].heading.title, "C");
    assert_eq!(a.children[1].heading.title, "D");
    assert_eq!(root.children[1].heading.title, "E");
    assert!(root.children[1].children.is_empty());
}

#[test]
fn tree_preorder_gives_back_the_sections() {
    let secs = vec![
        section(0, "doc", "intro"),
        section(3, "deep", "### deep"),
        section(1, "A", "# A"),
        section(2, "B", "## B"),
        section(2, "C", ""),
    ];
    let root = build_tree(&secs);
    // A section deeper than the first heading still hangs from the root.
    assert_eq!(root.children.len(), 2);
    let mut walk = vec![];
    preorder(&root, &mut walk);
    let expected: Vec<(u32, String, Option<String>)> = secs
        .iter()
        .map(|s| {
            let content = if s.content.is_empty() { None } else { Some(s.content.clone()) };
            (s.depth, s.title.clone(), content)
        })
        .collect();
    assert_eq!(walk, expected);
}

fn block(level: Option<u8>, text: &str) -> MdBlock {
    MdBlock { heading_level: level, text: text.to_string() }
}

#[test]
fn one_section_per_heading() {
    let blocks = vec![
        block(None, "intro\n"),
        block(Some(1), "# Title\n"),
        block(None, "para\n"),
        block(None, "more\n"),
        block(Some(2), "## Sub ##\n"),
    ];
    let secs = sections_from_blocks(&blocks, "f.md");
    assert_eq!(secs.len(), 3);
    assert_eq!((secs[0].depth, secs[0].title.as_str()), (0, "f.md"));
    assert_eq!(secs[0].content, "# f.md\n\nintro");
    assert_eq!((secs[1].depth, secs[1].title.as_str()), (1, "Title"));
    assert_eq!(secs[1].content, "# Title\n\npara\nmore");
    assert_eq!((secs[2].depth, secs[2].title.as_str()), (2, "Sub ##"));
    assert_eq!(secs[2].content, "## Sub ##");
}

#[test]
fn document_without_intro_has_an_empty_root() {
    let secs = sections_from_blocks(&vec![block(Some(1), "# Only\n")], "g.md");
    assert_eq!(secs.len(), 2);
    assert_eq!(secs[0].content, "");
}

#[test]
fn parser_reports_heading_levels_and_renders_blocks() {
    let blocks = markdown_blocks("# Title\n\nSome *em* text\n\n### Three\n");
    assert_eq!(blocks.len(), 3);
    assert_eq!(blocks[0].heading_level, Some(1));
    assert_eq!(blocks[0].text, "# Title\n");
    assert_eq!(blocks[1].heading_level, None);
    assert_eq!(blocks[1].text, "Some *em* text\n");
    assert_eq!(blocks[2].heading_level, Some(3));
    assert_eq!(blocks[2].text, "### Three\n");
}

#[test]
fn parser_reads_tables_and_front_matter() {
    let blocks = markdown_blocks("---\ntitle: x\n---\n\n| a | b |\n|---|---|\n| 1 | 2 |\n");
    assert_eq!(blocks.len(), 2);
    assert_eq!(blocks[0].heading_level, None);
    assert!(blocks[0].text.starts_with("---\ntitle: x\n---"));
    assert!(blocks[1].text.contains("| a | b |"));
}

#[test]
fn empty_document_has_no_chunks() {
    assert!(split_md_doc("", "e.md", &word_count).is_empty());
    assert!(split_md_doc("   \n\n", "e.md", &word_count).is_empty());
}

#[test]
fn text_before_any_heading_is_under_the_document_name() {
    let chunks = split_md_doc("Hello world.\n", "h.md", &word_count);
    assert_eq!(chunks, vec!["# h.md\n\nHello world.".to_string()]);
}

#[test]
fn chunks_carry_their_heading_path() {
    let doc = "# A\n\ntext a\n\n## B\n\ntext b\n\n#### D\n\ntext d\n";
    let chunks = split_md_doc(doc, "d.md", &word_count);
    assert_eq!(
        chunks,
        vec![
            "# d.md\n\n# A\n\ntext a".to_string(),
            "# d.md\n\n# A\n\n## B\n\ntext b".to_string(),
            "# d.md\n\n# A\n\n## B\n\n#### D\n\ntext d".to_string(),
        ]
    );
}

#[test]
fn chunks_of_given_blocks() {
    let blocks = vec![
        block(None, "Intro line.\n"),
        block(Some(2), "## Part\n"),
        block(None, "Body text.\n"),
        block(Some(1), "# Next\n"),
    ];
    let chunks = split_md_blocks(&blocks, "n.md", &word_count);
    assert_eq!(
        chunks,
        vec![
            "# n.md\n\nIntro line.".to_string(),
            "# n.md\n\n## Part\n\nBody text.".to_string(),
            "# n.md\n\n# Next".to_string(),
        ]
    );
}

const SAMPLES: [&str; 8] = [
    "",
    "plain",
    "a\n\n\nb\n\nc\n\n",
    "\n\nlead\r\n\r\ntrail\r",
    "  One. Two!  Three?four.\u{2003}",
    "x\r\ny\n\u{85}z\u{a0}\n",
    "...!!??",
    "\t\u{3000} mixed \u{2028}",
];

#[test]
fn text_operations_agree_with_std() {
    for s in SAMPLES {
        let c = chars(s);
        assert_eq!(text_of(&trim_chars(&c)), s.trim());
        assert_eq!(texts(&split_paragraphs(&c)), s.split("\n\n").collect::<Vec<_>>());
        assert_eq!(texts(&lines_of(&c)), s.lines().collect::<Vec<_>>());
        assert_eq!(
            texts(&split_inclusive_chars(&c, false)),
            s.split_inclusive(|ch| ch == '.' || ch == '!' || ch == '?').collect::<Vec<_>>()
        );
        assert_eq!(texts(&split_inclusive_chars(&c, true)), s.split_inclusive('\n').collect::<Vec<_>>());
    }
}

#[test]
fn first_chunk_of_a_long_section_starts_with_its_heading_path() {
    let body = sentences("x", 40).join(" ");
    let doc = format!("# A\n\n## B\n\n{}\n", body);
    let chunks = split_md_doc(&doc, "d.md", &word_count);
    assert!(chunks.len() > 2);
    assert_eq!(chunks[0], "# d.md\n\n# A");
    assert!(chunks[1].starts_with("# d.md\n\n# A\n\n## B"));
    for c in &chunks {
        assert!(word_count(c) <= MAX_TOKENS);
    }
    assert_eq!(non_ws(&chunks[1..].concat()), non_ws(&format!("# d.md # A ## B {}", body)));
}

#[test]
fn prose_before_a_list_is_cut_by_sentences() {
    let u = split_into_sub_units(&chars("Prose one. Prose two.\n- a\n- b"));
    assert_eq!(texts(&u), vec!["Prose one.", "Prose two.", "- a", "- b"]);
}

#[test]
fn prose_before_a_list_stays_within_the_limit() {
    let long_line = format!("{}. {}.", words("p", 150), words("q", 150));
    let doc = format!("# S\n\n{}\n\n- a\n- b\n", long_line);
    let chunks = split_md_doc(&doc, "d.md", &word_count);
    assert!(chunks.len() >= 2);
    for c in &chunks {
        assert!(word_count(c) <= MAX_TOKENS);
    }
    assert_eq!(
        non_ws(&chunks.concat()),
        non_ws(&format!("# d.md # S {} - a - b", long_line))
    );
}
