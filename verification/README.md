# qf

`qf` is a static site generator for portfolios. It reads pages written in a
small markdown-like language (metadata lines such as `@type article` and
`@title ...`, then headings, lists, quotes, code blocks, `@image` blocks,
`@articles`/`@projects` indexes and paragraphs) and renders every page as
accessible HTML and as plain text.

The library in `src/` is verified with Verus:

- `parser`: metadata, blocks and inline markup, each with an exact
  specification of what a line sequence parses to, or which error it gives.
- `compiler`: routes of pages, the index of articles and projects, the
  previous/next links between articles (sorted by date) and the entries of
  linked indexes; `compile` and `build` tie the steps together.
- `output`: the HTML and plain-text pages, and the files to write.
- `text`: the string functions the rest is built on, with their models.

Laws about the whole (routes are normalized, sorting keeps the articles and
orders them, every article links to its neighbours, a linked index lists
exactly the documents of its type that pass its filter, escaped text cannot
open a tag and decodes back to the text, inline parsing loses no text,
parsed headings have levels 1 to 6, a compiled site can always be rendered)
are stated and proved as `law_*` proof functions.

`app/` holds the command-line program: it reads `qf.config.json` and the
content directory, calls the library, and writes the output through a
staging directory, copying the static directory in.

```
qf build --root /path/to/portfolio
```
