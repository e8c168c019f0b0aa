# portwatch

A library that decodes harbor-operations exchange files, written in Verus. Each executable
function is verified against its contract, except four small wrappers in `text` around `std`
calls, whose contracts are trusted; the three fuzzing entry points in `lib.rs` return nothing,
so what is proved of them is that they return without a panic.

- `cursor`, `buf`, `text`, `checksum`: reading and writing bytes and text, CRCs and tags.
- `codec`, `tlv`, `frame`, `manifest`: compressed payloads, entries, framed streams and
  archive manifests, each specified as a function on bytes.
- `dictionary`, `template`, `ledger`: the string dictionary, record templates and the vessel
  ledger, specified as state machines over their views.
- `ais`, `berth`, `cargo`, `tide`, `pilot`, `notice`, `route`, `model`, `catalog`: the
  harbor data and the rules on it.
- `session`: a stream session, whose frames, records and segments are specified as
  transitions of a `SessionView`.
- `analyzer`, `validate`, `report`, `planner`, `graph`: analyses, tug planning and the route
  graph.
- `keyed`, `sort`, `tally`: ordered collections kept in vectors, stable sorting and sums,
  with their laws.

`app/` holds the command-line dump program, the floating-point views of the data and the
`Display` implementations, which stay outside the verified library.
