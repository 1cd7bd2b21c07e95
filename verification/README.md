# codecairn

A model-free project map for AI assistants: an overview of a codebase, its directories with
guessed roles, and its files ranked by how many others depend on them.

The library under `src/` holds everything that decides what the map says. It is written in Verus:
each function states in its contract what it returns, and the laws of the map are proved as proof
functions beside the functions that they speak of.

- `text`, `order`, `collections`: text as sequences of characters, ordering, maps and the
  dependency graph
- `model`: what a map is made of
- `syntax`, `walk`, `extract`: syntax trees, what is found in them, and the patterns that take over
  where a tree says nothing
- `resolve`, `registry`: what an import stands for
- `analyze`, `manifest`, `structure`, `ranking`, `project`, `markdown`: from files to the map
- `stability`: the map does not depend on the order in which the files are found
- `platform`: the packages in which the program is shipped

Parsing with tree-sitter, matching with `regex`, and reading JSON and TOML are done by those crates.
The library states of them what it relies on, and no more, in the contracts of a few functions
marked `external_body`.

The program under `app/` walks over the files, reads them and writes the map. Started under the
name `gen-platform-pkgs` it copies a built release into the npm package for its platform. The tests under
`tests/` run the library, together with the crates that it calls, on concrete values.
