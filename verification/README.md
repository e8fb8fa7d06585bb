# tilth

tilth reads and searches source code by its structure. It shows a large file as an
outline, reads a section by its lines, its heading or a symbol, finds the
definitions and the usages of a symbol, walks callers and callees, lists what a
file depends on and what depends on it, and tells what a change did to the symbols
of a file.

## Layout

- `src/` is the library, written in Verus. Every function says in its contract what
  it returns; what holds of several functions together is stated by the public proof
  functions whose names begin with `law_`.
  - `text`, `paths`, `sort`, `json`, `types`, `groups`: what the rest is written in.
  - `syntax`, `lang`: syntax trees as plain records, outlines, definitions.
  - `read`: views of a file, sections, headings, suggestions.
  - `search`: symbols, usages, callers, callees, siblings, dependencies, facets, and
    how each is shown.
  - `index`, `cache`, `session`: what is kept between requests.
  - `diff`: unified diffs, and symbols matched across two versions of a file.
  - `classify`, `run`, `cli`, `disambiguate`, `mcp`: what a query, a command line or
    a request asks for, and what is done next.
- `app/` is the program around it: arguments, files, git, the request loop.
- `tests/` run the library with the real grammars, matchers and maps.

## What is not proved

Parsers and queries (`tree-sitter` and its grammars), line matching (`grep-regex`,
`grep-searcher`), pattern scanning (`aho-corasick`, `memchr`), escaping
(`regex-syntax`) and concurrent maps (`dashmap`) are called through small functions
marked `external_body`. Each says in its doc comment what it claims of the crate it
calls. Their results that take long to state have a name, a spec function without a
body, and the contracts above them speak of that name.
