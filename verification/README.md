# lssg

The core of a static site generator, verified with Verus: the markdown
dialect's block and inline tokenizers, an html lexer and dom tree, the site tree with its
links and output plan, stylesheets and scripts with their imports, sitemaps,
blog dates and rss feeds, and the decisions of the media module.

- `src/` is the verified library. Each public function states in its
  contract what it returns; `src/laws.rs` holds properties that span several
  operations.
- `tests/` runs the library on concrete inputs.
- `app/` holds what the library leaves to its caller: reading streams and
  files, writing output, and the option types as serde reads them.
