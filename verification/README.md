# novel_sources

The logic of three Chinese light-novel sources for the Aidoku reader —
輕小說文庫 (www.wenku8.net), 嗶哩輕小說 (tw.linovelib.com, read through its
JSON API) and LightNovel.fun — written in Verus and proved against its
contracts.

## Layout

- `src/text.rs`: strings as sequences of characters: searching, splitting,
  trimming, replacing, decimal numerals and ids.
- `src/url.rs`: the path of a link on a site, and lemmas about the searches.
- `src/model.rs`: what a source hands back (novels, chapters, deep links,
  errors) and the mathematical view of each.
- `src/markdown.rs`: chapter HTML, as a tree of plain nodes, rendered as
  Markdown the way each source renders it.
- `src/gbk.rs`: GBK through `encoding_rs`, and percent-encoding of bytes.
- `src/wenku8.rs`, `src/linovelib.rs`, `src/lightnovelfun.rs`: each source's
  addresses, deep links, page and API readers, chapter lists and texts, with
  the laws that tie them together (links round-trip, chapters are numbered
  from the oldest and listed newest first, result pages are bounded).
- `app/`: the Aidoku plumbing around the library: requests, HTML selection,
  JSON decoding and the conversions to Aidoku's types.
- `tests/`: tests of the library on concrete values.
