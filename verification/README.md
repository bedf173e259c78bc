# mac_egg

A Verus-verified core of a standard-cell netlist optimizer built around
e-graphs.  The library (`src/`) holds the logic of the optimizer that can be
stated and proved: reading AIGER netlists, Liberty text scanning, the Boolean
function grammar of cell pins, the command lines of the tools, pattern mining
over serialized e-graphs, the leaves-to-roots traversal of an e-graph,
physicalization of occurrence-anchored topology rewrites, structural
realizations and their deduplication, the unified equivalence-candidate
representation, the materialization plan of structural macros, the
potential-guided portfolio choice of the sizing schedule, and the reading
of mapped gate-level Verilog into the wired structure that sizing
evaluates (drivers, aliases, output sources, the cone of the outputs, its
evaluation order and its consumers), and the structural plan of a one-instance change.

Layout:

- `src/` — the verified library, one module per concern; each public
  function carries a contract over mathematical models (`Seq`, `Set`, spec
  functions), and the laws that relate several functions are public proof
  functions.
- `tests/` — executable tests of the library.
- `app/` — a thin command-line front end that reads files and arguments and
  prints what the library computes.
