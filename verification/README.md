# conformator

A small configuration language with a verified core.  A configuration holds

- dependency trees, `name[@processor]: dep + !dep + ...;` (`!` marks an
  optional dependency), which are staged
  into install levels where each level depends only on the levels before it;
- function definitions, `-- name does body;`, where a body is a text or a
  call `$ name body`; texts with a `{}` hole are format strings.

Layout:

- `src/` — the library, proved with Verus:
  - `lexer.rs`: the grammar as specification functions over characters, and
    the parsers proved to follow it;
  - `types.rs`: the syntax tree and its mathematical views;
  - `graph.rs`: reachability, the depth-first walk that looks for names met twice,
    and levels, with their lemmas;
  - `packages.rs`: the dependency graph of packages, the walk over it, the levels
    and the staged list, with the laws that stages respect dependencies;
  - `functions.rs`: function definitions read into callables against a
    registry, and the stepwise running of callables;
  - `output.rs`: what the command builtins hand back;
  - `text.rs`: character helpers.
- `app/` — the command line: reading files, printing, running `bash`.
- `tests/` — tests of the library, including a comparison of the parsers
  with the grammar written in nom's combinators.
