# dowsing_core

The analysis core of Dowsing Rod, a tool that finds structural refactoring
opportunities, written in Verus and verified.

Layout:

- `src/graph.rs` — the similarity graph, the integer order keys of its edge
  weights, walks and connected components, and the proof that the listing of
  components is unique.
- `src/clustering.rs` — breadth-first components, splitting of oversized
  components by removing their weakest edges, and the choice of the member
  lists that become clusters (at most twenty members, never hardware
  description units, never overlapping).
- `src/classification.rs` — labels and the decision of the refactoring pattern
  from member traits and similarity evidence.
- `src/ranking.rs` — rank order of clusters, cluster identifiers, report limits.
- `src/render.rs` — numbers, durations and the sections of the human report.
- `src/report.rs` — the whole human report, assembled from its sections.
- `src/types.rs`, `src/text.rs` — the data model and text building blocks.
- `app/` — the command line, serialization, terminal output and the parts of
  the analysis that compute with floating-point similarity scores.
