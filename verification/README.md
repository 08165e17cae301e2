# hetnet

Heterogeneous directed graphs (typed nodes, typed edges, properties) with
meta-path queries, edge deduplication, hop distances and random-walk support,
verified with Verus.

## Layout

- `src/` — the verified library.
  - `graph.rs`, `builder.rs`, `type_table.rs`, `properties.rs`: the graph, its
    builder, type tables and property maps, with a well-formedness invariant
    that every operation keeps.
  - `meta_path.rs`: the meta-path language (`[Author] -{writes}-> [Paper] -> [*]`):
    a parser stated against a specification of the grammar, its exact error
    messages, rendering, reversal and resolution of type names.
  - `algorithms/`: meta-path walks and subgraphs, deduplication of parallel
    edges, weight updates and Markov graphs (structure), second-order step
    classification, unweighted random walks, breadth-first hop distances,
    exploration coverage, and the state numbering of the cached node2vec walker.
- `tests/` — tests of the library on concrete graphs.
- `app/` — what the library leaves out: edge weights and all floating-point
  work on them (weighted walks, alias sampling, exploration densities), fresh
  graph identifiers, errors with display messages, and the Python module.
