# lm_orchestrator (markdown chunking)

Splits markdown documents into heading-aware chunks bounded by token counts,
for a vector store. The library is written in Verus. Every executable function in
`src/` carries a contract that Verus proves, except two small trusted
wrappers: one around comrak's parser and renderer, one around `String::push`;
their contracts are believed, not proved.

- `text`: whitespace, trimming, and cutting text at blank lines, line ends and
  sentence ends, on character sequences.
- `tokens`: the token limits and the caller's token counter.
- `slicing`, `slicing_laws`: cutting a section's text into slices, and what
  holds of every slicing (no text is lost, no slice goes over the limit but a
  single unit that does, a slice closes short of the minimum only where the
  next unit cannot join it, the leading paragraphs stay together).
- `sections`: grouping a document's top-level blocks into one section per
  heading.
- `tree`, `tree_laws`: the heading tree built from the sections.
- `chunks`, `chunks_laws`: the chunks of a tree, each behind the headings
  above it.
- `markdown`: the comrak parser, behind a trusted wrapper whose result is
  named by `comrak_blocks`.
- `md`: the whole pipeline (`split_md_doc`), and what holds of a whole
  document's chunks (one per section where all fit, all within the limit
  where every unit fits, each section's first chunk led by its heading path).
