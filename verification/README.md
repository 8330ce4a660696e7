# rustychickpeas_ldbc

Verified building blocks of the LDBC benchmark families over a property graph,
written in Verus. `src/` is the library, each function proved against its
contract; `app/` is the Graphalytics runner program around it, with the code
that reads the SNB and FinBench table directories from disk.

## Layout

- `topology`, `graphalytics`, `components`, `propagation`, `clustering`,
  `closure`: the graph algorithms — breadth-first depths, weakly connected
  components (smallest-id labels), label propagation, the local clustering
  coefficient counts (with the galloping search), and the transitive closure of
  a relation.
- `dataset`, `validate`: the Graphalytics `.v` / `.e` / `.properties` dataset
  format and the exact and relabel-invariant checks against reference output.
- `ntriples`, `rdfload`, `rdfgraph`, `hashed`: the N-Triples reader and the
  mapping of RDF statements onto a property graph (resource identities,
  RDFS forward-chaining of classes and properties, first-literal properties).
- `dates`, `numtext`, `textlines`, `text`: LDBC date arithmetic, integer
  parsing, lines and words of a text.
- `json`, `ranking`, `bench`: JSON output, ranked top-k selection, and the
  benchmark run configuration.
- `spb`: the SPB queries over the loaded RDF graph (full-text matches are
  handed in as node lists).
- `tables`, `social`, `finbench`: reading the benchmark tables (gzip
  decoding and pipe-delimited CSV through `flate2` and `csv`, columns picked
  by header) and building the SNB social graph (nodes, properties, dates as
  day numbers, `knows` both ways, message text on request) and the FinBench
  graph (per-type id maps, time-stamped edges) from them, with the FinBench
  co-investor read.
- `interactive`, `bi`: the SNB Interactive reads and the BI queries over the
  social graph (posting summary, tag evolution, top creators, international
  dialog, related topics, active and authoritative posters, central persons,
  thread initiators, popular topics, experts, message histogram, fake news,
  friend recommendation, reply interactions, and the simplified patterns).

The floating-point parts (PageRank, weighted shortest paths, the clustering
coefficient's division, tolerance checks, FinBench amounts) stay out of the
library.
