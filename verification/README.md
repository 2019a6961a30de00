# kicad_cdb

The verified core of a KiCad component-database toolchain, written in Verus.

`src/` is the library. Its functions carry contracts that Verus proves, except five
small wrappers marked `#[verifier::external_body]`, whose contracts are trusted: they
call `str::to_uppercase`, `str::to_lowercase`, `String`'s `collect` from characters, and
`serde_json` (a JSON string array; the items of a synchronisation export). The modules:

- `content_hash`, `schema`: content hashes of imported components, reading a
  synchronisation export and deciding and recording what happens to each item;
  pending schema migrations.
- `rules`, `rule_text`, `rule_expr`: the design-rule table and its lookups, the
  tokens, statements, assignments and contract checks of rule formulas, and the
  expression grammar that turns tokens into an evaluation tree.
- `skill_match`: matching a design question against the rules (keyword table,
  name parts, description words, covered parameters).
- `service`, `composition`, `topology`: component queries, ranked alternatives,
  built-in composition recipes and their summaries, template names.
- `symgen`: pin classification, reference prefixes, electrical types, symbol pin
  layout and library tables.
- `grid`, `maze`, `pattern_route`, `wavefront`, `mst`, `net_topology`, `nets`,
  `bus_groups`, `silk`: the integer side of the router — the layered grid,
  breadth-first maze routing, L-shaped pattern routes, the cell encoding, obstacle
  dilation and path-commit plan of the wavefront grid (not its export), minimum
  spanning trees, fly-by topologies, differential pairs, bus groups and silkscreen
  decisions.

`app/` is ordinary Rust around the library: SQLite and file I/O, JSON types,
and the parts whose values are floating point (rule evaluation, topology
suggestions, prices, match scores).

Not here: the router core that works on floating-point board geometry — A*
search with its costs, the auto-router and its design-rule feedback loop,
push-and-shove, fan-out, the board-level wavefront export and path commit, adaptive
path widths — and the rich symbol generator that places pins in millimetres. They
rest on the board model of the KiCad JSON crates, which this project does not
depend on.

`tests/` exercises the library on concrete values.
