# puml

The text-processing and graph-layout core of a PlantUML-compatible diagram
tool, written in Verus: every function in `src/` carries a contract that the
verifier proves. Geometry (coordinates, sizes) and SVG/PNG drawing are not
part of this library.

## Layout

- `src/text.rs` — character-level models of strings (lines, trimming,
  searching) and the executable helpers proved against them.
- `src/parser/preprocessor.rs` — `!include` splicing (stated as a relation
  over what the file-access closures answer), `!define` substitution,
  `!theme` rewriting, comment removal and splitting of a source into
  `@start…`/`@end…` blocks.
- `src/parser/c4.rs` — recognition of C4-PlantUML sources and the rewrite
  of their macros into plain component syntax.
- `src/parser/*.rs` — the parsing helpers that work on plain text
  (arrow styles, stereotypes, unquoting, node registries, type detection).
- `src/layout/sugiyama.rs` — barycentric crossing reduction and grid column
  assignment, stated over exact rational barycentres.
- `src/layout/class.rs` — ranking of class diagrams: cycle breaking and
  longest-path layering, with laws on acyclicity and rank bounds.
- `src/layout/boundary.rs` — how deeply each boundary (package, C4
  system, deployment node) holds others.
- `src/layout/state.rs` — state ranks by a search from `[*]`, their layers
  and crossing reduction; `src/layout/usecase.rs` — the actor and use-case
  columns and their alternating sweeps; `src/layout/mindmap.rs` — the tree a
  mind map's depths give and the side of each branch;
  `src/layout/gantt.rs` — task start days, the chart's last day and the
  day axis.
- `src/layout/*.rs` — message collection, autonumbered labels, barycentre
  sorting and the structural types of laid-out diagrams.
- `src/render/theme.rs` — the theme presets and how `skinparam` lines
  override colours, font and arrow settings; `src/render/primitives.rs` —
  text escaping for SVG.
- `src/output.rs` — the names of output files and whether one is PNG.
- `src/watch.rs` — which files watch mode follows after each render.
- `src/init_genai.rs` — the decisions behind writing assistant-guidance
  files (skip, create, overwrite) and the report counts.
- `app/` — the command-line program: argument parsing, file access, watch
  mode and `init-genai`. It preprocesses its input (reporting unknown
  directives), names the output files and plans the watched files with the
  library; with no diagram parser in this project it stops there with an
  error.
- `tests/` — executable tests of the library on concrete inputs.

The laws of the library are public proof functions whose names begin with
`law_`; each one's doc comment states it in words.
