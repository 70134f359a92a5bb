# mkcdoc

Generates a static documentation site from Doxygen-style comments in C sources and
hand-written Markdown pages, and serves it locally with live reload.

The library under `src/` is written in Verus; its functions carry `requires`/`ensures`
contracts proved by the verifier. Where it calls tree-sitter or pulldown-cmark, the
contracts speak of the parser's results by name (`c_syntax_nodes`, `md_kinds`, `md_html`),
and what the library does with them is proved:

- `text`, `paths`, `order`: characters, path components and extensions, and the order of
  paths, stated over `Seq<char>`.
- `doxycomment`: recognising and parsing Doxygen comments.
- `syntax`, `parse`: the tree-sitter syntax tree of a C source, held as plain data, and the
  documented declarations extracted from it.
- `merge`: one entry per public function across headers and sources.
- `render`: anchors, page names, cross-reference links and the views of the API page.
- `config`, `pipeline`, `content`, `serve`: configuration, the plan of a build, Markdown
  rendering, and the development server's decisions.

Symbol tables, merge entries and file groups are held in `Vec`s with their invariants stated
(one entry per name, groups in path order), not in `HashMap` or `BTreeMap`: with `String`
keys Verus proves next to nothing about those maps.

`app/` holds the command-line program: reading files, the Tera templates, the file watcher
and the HTTP server.
