# acadifc

IFC support for CAD drawings, verified with Verus: IFCCAD package diagnostics
and their canonical order, canonicalisation error codes, the bundled
conformance path, hatch boundary flags, and the bridge that moves ACIS solids
between a flat record document and an editable topology.

## Layout

- `src/` — the verified library.
  - `acis/document.rs` — the ACIS record document: records that name each
    other by id.
  - `acis/body.rs` — the editable topology: nodes in arenas, each remembering
    the record it came from.
  - `acis/lift.rs` — the walk from a body record to a topology, with what it
    could not represent.
  - `acis/lower.rs` — writing edited geometry back through the records it
    came from.
  - `acis/append.rs` — writing a whole body as new records.
  - `acis/round_trip.rs` — what a body written out whole looks like when it
    is lifted again: the lists it holds.
  - `acis/relift.rs` — the same, node by node: coedges, edges, vertices and
    their points, curves, and faces on their surfaces.
  - `acis/reread.rs` — what a save writes for an edited vertex, a later lift
    reads back.
  - `entities/hatch.rs` — hatch enumerations, boundary path flags and
    polyline edges.
  - `ifccad/` — package diagnostics, their context and order, canonicalisation
    errors and the conformance path.
- `tests/` — tests of the library.
- `app/` — what talks to the outside: the serde shapes of a report, the
  package error with its messages, the conformance directory, and the
  conversions between the ACIS codec's and geometry kernel's types and the
  library's, with the floating-point geometry reading and writing that the
  kernel does.

Coordinates carried through the ACIS bridge are held as the bits of their
floating-point values; nothing in the library computes with them. What the
kernel makes of each record (whether it can read a curve or surface record,
and where it places the vertices of an edge on a straight curve) is decided
with the kernel and handed to the walk as one reading per record.
