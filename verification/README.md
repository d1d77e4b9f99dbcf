# shard_builder

Builds Qdrant shards offline: points are read from Parquet files, routed by the collection's hash
ring into part files, grouped into segments, built, and assembled into directories that a serving
cluster takes over without rewriting them.

`src/` is the library. Verus proves it: every function states what it returns and when it refuses.
`app/` is the program around it: arguments, files, threads, HTTP, and the storage engine, which only
`app/engine.rs` names. The engine's crates belong to Qdrant's own workspace; the program is built
there.

| Module | What it decides |
| --- | --- |
| `gates`, `document` | whether a document is complete, known and consistent |
| `config`, `payload_index` | fingerprints, segment sizes, placements |
| `surfaces`, `delimited` | that a fingerprint's text tells configs apart |
| `ring` | which shard a point belongs to |
| `parquet_source` | how a row becomes a point |
| `dense_codec`, `records` | how a point is stored, and read back |
| `frames`, `partfile` | the part format, and what a build takes out of a part |
| `commit` | in which order a finished part gets its name |
| `plan` | how parts are cut into segments, and how segments are named |
| `building` | which segments are built where, from which records |
| `assemble` | what a shard directory needs to be loaded |
| `retarget` | which placements change without a rebuild |
| `placement` | whether points are where the ring says |
| `progress`, `report`, `cli` | what is printed, and how arguments are read |
| `text`, `bytes`, `ids`, `names`, `json` | what the others are made of |

Every phase can be repeated. A plan cuts every record into exactly one segment
(`plan::segments_hold_every_record_once`) and into segments that the serving cluster never merges
(`plan::planned_segments_never_merge`), a part that changed since it was planned is refused
(`building::a_changed_part_is_refused`), slices of the work are disjoint and complete
(`building::slices_cover_the_work_once`), a part read back is the part written
(`frames::records_read_back`) and is whole or absent wherever its commit is cut off
(`commit::a_part_is_whole_or_absent`), retargeting twice is retargeting once
(`retarget::a_finished_run_leaves_nothing_to_do`), and a log continues behind the segments it
belongs to (`assemble::assembled_shards_verify`). Two documents have the same fingerprint text
exactly where they agree on what a segment is rebuilt over
(`surfaces::full_surface_tells_configs_apart`), however they spell it
(`surfaces::fingerprint_ignores_threads_and_spelling`). What is believed without proof, of
`serde_json`, `sha2`, `uuid` and the standard library, stands in `json`, `ids` and `text`, each with
a comment that names the function and what is claimed of it.
