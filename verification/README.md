# horndb_sparql

A SPARQL engine as a library verified with Verus: parsing into an operator
tree, planning and rewriting, evaluation over batches of rows, updates that
apply as a whole or not at all, materialized views of inferred graphs, result
formats, and the decisions of the HTTP endpoint.

- `src/` is the library. `algebra` and `plan` hold queries and plans, `exec`
  evaluates them, `update` and `feed` change a store, `reasoning` and `regime`
  keep derived graphs, `results` writes answers, `server` decides what a
  request is answered.
- `tests/` runs it.
- `app/` is the server around it: HTTP, threads, files, floating point numbers.

What outside crates do (parsing SPARQL and RDF, regular expressions, IRI
resolution, JSON objects, the clock) is called through small functions marked
`external_body`, each with a comment that says what is relied on.
