//! Reading a document's bodies into editable topology.
//!
//! The document is a flat array of records that name each other by id; the
//! topology wants nodes in arenas that name each other by position. Lifting
//! is one walk over the pointer graph that builds the second structure,
//! remembering for each node the record it came from.
//!
//! Lumps, shells, faces and loops are each a linked list: the owner names the
//! first and every one names the next. A loop's coedges are a ring joined by
//! next pointers, so that walk stops when it comes back to where it started.
//! A record named by several nodes, such as a curve shared by four edges,
//! becomes one node.
//!
//! What the kernel makes of each record is decided outside this module, from
//! the floating-point values in it, and handed in as one [`Reading`] per
//! record slot: whether it has a case for the record as a curve, whether it
//! has one for it as a surface, and where it places the two vertices of an
//! edge on a straight curve, which are then believed over the parameters the
//! edge record stores.
//!
//! What is not lifted is not lost. An edge on a curve the kernel cannot read
//! is still made, its curve held as the record it is, and the curve is
//! reported in [`Loss`]. A face whose surface the kernel cannot read cannot
//! be made; the surface is reported. Every record the walk meets where it
//! wants one of another kind, every vertex's point record without a
//! position, and the coedge where a ring that never closes is cut, are
//! reported as broken, and nothing else is.

use vstd::prelude::*;
use super::append::{
    all_below, coedge_ok, edge_ok, face_ok, loop_ok, lump_ok, no_repeats, shell_ok, writable_topology,
};
use super::body::{Body, Coedge, Edge, Face, GeometryRecord, Loop, Lump, Provenance, Shell, Vertex};
use super::lower::{
    count_unclean, lemma_untouched_lowers_byte_for_byte, pending_count, planned_writes, run_writes,
    WriteFailure,
};
use super::document::{
    forward_field, pointer_field, resolve_slot, same_text, tokens_view, RecordView, SatDocument,
    SatRecord, SatToken, TokenView,
};

verus! {

/// What a lift could not represent.
///
/// Empty means the whole document is in the kernel's own terms.
#[derive(Debug, Clone, PartialEq, Eq)]
pub struct Loss {
    /// Ids of records whose surface kind has no kernel equivalent.
    pub surfaces: Vec<usize>,
    /// Ids of records whose curve kind has no kernel equivalent.
    pub curves: Vec<usize>,
    /// Ids of records the pointer graph named but that are malformed.
    pub broken: Vec<usize>,
}

impl Loss {
    /// A loss with nothing in it.
    pub fn new() -> (l: Self)
        ensures
            l.surfaces@.len() == 0 && l.curves@.len() == 0 && l.broken@.len() == 0,
    {
        Loss { surfaces: Vec::new(), curves: Vec::new(), broken: Vec::new() }
    }

    /// Whether the document lifted completely.
    pub fn is_empty(&self) -> (r: bool)
        ensures
            r == (self.surfaces@.len() == 0 && self.curves@.len() == 0 && self.broken@.len() == 0),
    {
        self.surfaces.len() == 0 && self.curves.len() == 0 && self.broken.len() == 0
    }
}

/// What the kernel made of one record of the document.
#[derive(Debug, Clone, Copy)]
pub struct Reading {
    /// Whether the record is a curve the kernel has a case for.
    pub curve: bool,
    /// Whether the record is a surface the kernel has a case for.
    pub surface: bool,
    /// For an edge record on a curve that places its vertices, such as a
    /// straight line, the bits of the parameters of its start and end
    /// vertices on that curve, in that order.
    pub placed: Option<(u64, u64)>,
}

impl Default for Loss {
    fn default() -> (l: Self)
        ensures
            l.surfaces@.len() == 0 && l.curves@.len() == 0 && l.broken@.len() == 0,
    {
        Loss::new()
    }
}

// ---------------------------------------------------------------------------
// Reading records.

/// The record a pointer names, or an empty record when it names none.
pub open spec fn named(d: Seq<RecordView>, id: int) -> RecordView {
    match resolve_slot(d, id as i32) {
        Some(s) => d[s],
        None => RecordView { index: -1i32, kind: Seq::empty(), tokens: Seq::empty() },
    }
}

/// Whether a pointer names a record of the given kind.
pub open spec fn names_kind(d: Seq<RecordView>, id: int, kind: Seq<char>) -> bool {
    i32::MIN <= id <= i32::MAX && resolve_slot(d, id as i32) is Some && named(d, id).kind == kind
}

/// The float at token `i` of a record, as its bits, or the bits of zero when
/// that token is missing or is not a float.
pub open spec fn float_field(r: RecordView, i: int) -> u64 {
    if 0 <= i < r.tokens.len() {
        match r.tokens[i] {
            TokenView::Float(f) => f,
            _ => 0u64,
        }
    } else {
        0u64
    }
}

/// The pointer at token `i`, as an integer.
pub open spec fn link(r: RecordView, i: int) -> int {
    pointer_field(r, i) as int
}

/// Whether the float with these bits is not a number.
pub open spec fn is_nan_bits(x: u64) -> bool {
    x % 0x8000_0000_0000_0000 > 0x7ff0_0000_0000_0000
}

/// A float's place in numeric order, from its bits: the magnitude bits read
/// as an integer, negated for a negative sign. Both zeros are at zero.
pub open spec fn float_order(x: u64) -> int {
    if x >= 0x8000_0000_0000_0000 {
        -((x - 0x8000_0000_0000_0000) as int)
    } else {
        x as int
    }
}

/// Whether the float with bits `a` is less than or equal to the one with bits
/// `b`; false when either is not a number.
pub open spec fn float_le(a: u64, b: u64) -> bool {
    !is_nan_bits(a) && !is_nan_bits(b) && float_order(a) <= float_order(b)
}

/// The position a point record holds, if the pointer names a well-formed one.
pub open spec fn point_at(d: Seq<RecordView>, id: int) -> Option<(u64, u64, u64)> {
    if names_kind(d, id, "point"@) && named(d, id).tokens.len() > 1 {
        match named(d, id).tokens[1] {
            TokenView::Position(x, y, z) => Some((x, y, z)),
            _ => None,
        }
    } else {
        None
    }
}

/// The position of the point a vertex record names, if it lifts.
pub open spec fn vertex_point(d: Seq<RecordView>, id: int) -> Option<(u64, u64, u64)> {
    if names_kind(d, id, "vertex"@) {
        point_at(d, link(named(d, id), 2))
    } else {
        None
    }
}

/// Whether a pointer names a record the kernel can read as a surface.
pub open spec fn surface_lifts(d: Seq<RecordView>, reads: Seq<Reading>, id: int) -> bool {
    i32::MIN <= id <= i32::MAX && match resolve_slot(d, id as i32) {
        Some(s) => s < reads.len() && reads[s].surface,
        None => false,
    }
}

/// Whether a pointer names a record the kernel can read as a curve.
pub open spec fn curve_lifts(d: Seq<RecordView>, reads: Seq<Reading>, id: int) -> bool {
    i32::MIN <= id <= i32::MAX && match resolve_slot(d, id as i32) {
        Some(s) => s < reads.len() && reads[s].curve,
        None => false,
    }
}

/// Whether a pointer names an edge record that lifts: its curve record is
/// there, whether or not the kernel can read it, and both its vertices lift.
pub open spec fn edge_lifts(d: Seq<RecordView>, reads: Seq<Reading>, id: int) -> bool {
    let r = named(d, id);
    &&& names_kind(d, id, "edge"@)
    &&& in_document(d, link(r, 6))
    &&& vertex_point(d, link(r, 1)) is Some
    &&& vertex_point(d, link(r, 3)) is Some
}

/// The tokens of a record after its attribute pointer.
pub open spec fn rest_tokens(r: RecordView) -> Seq<TokenView> {
    if r.tokens.len() > 0 {
        r.tokens.subrange(1, r.tokens.len() as int)
    } else {
        Seq::empty()
    }
}

/// Whether a geometry node holds the record form of a record.
pub open spec fn holds_form(g: Option<GeometryRecord>, r: RecordView) -> bool {
    match g {
        Some(x) => x.kind@ == r.kind && tokens_view(x.tokens@) == rest_tokens(r),
        None => false,
    }
}

/// The id a node's provenance names, or -1 when it names none.
pub open spec fn source_id(p: Provenance) -> int {
    match p {
        Provenance::Clean(x) => x as int,
        Provenance::Dirty(x) => x as int,
        Provenance::Synthesized => -1,
    }
}

/// The provenance of a node lifted from the record with id `id`.
pub open spec fn lifted_provenance(id: int) -> Provenance {
    if 0 <= id <= u32::MAX {
        Provenance::Clean(id as u32)
    } else {
        Provenance::Synthesized
    }
}

/// Whether a pointer names a record of the document.
pub open spec fn in_document(d: Seq<RecordView>, id: int) -> bool {
    i32::MIN <= id <= i32::MAX && resolve_slot(d, id as i32) is Some
}

/// Whether every id listed names a record the kernel cannot read as a
/// surface.
pub open spec fn unread_surfaces_all(d: Seq<RecordView>, reads: Seq<Reading>, ids: Seq<usize>) -> bool {
    forall|j: int| 0 <= j < ids.len() ==> unread_surface(d, reads, #[trigger] ids[j] as int)
}

/// Whether every id listed names a record the kernel cannot read as a
/// curve.
pub open spec fn unread_curves_all(d: Seq<RecordView>, reads: Seq<Reading>, ids: Seq<usize>) -> bool {
    forall|j: int| 0 <= j < ids.len() ==> unread_curve(d, reads, #[trigger] ids[j] as int)
}

/// Whether some record of kind `holder` names record `id` at token `field`.
pub open spec fn named_as(d: Seq<RecordView>, id: int, holder: Seq<char>, field: int) -> bool {
    exists|j: int| 0 <= j < d.len() && d[j].kind == holder && #[trigger] link(d[j], field) == id
}

/// Whether record `id` is named, through a token the walk follows, where the
/// walk wants a record of another kind: a lump's or body's lump, a lump's or
/// shell's shell, a shell's or face's face, a face's or loop's loop, a loop's
/// or coedge's coedge, a coedge's edge, an edge's vertex; or is named as a
/// vertex's point without being a point record with a position.
pub open spec fn misplaced(d: Seq<RecordView>, id: int) -> bool {
    &&& in_document(d, id)
    &&& {
        ||| (named_as(d, id, "body"@, 1) || named_as(d, id, "lump"@, 1)) && !names_kind(d, id, "lump"@)
        ||| (named_as(d, id, "lump"@, 2) || named_as(d, id, "shell"@, 1)) && !names_kind(d, id, "shell"@)
        ||| (named_as(d, id, "shell"@, 3) || named_as(d, id, "face"@, 1)) && !names_kind(d, id, "face"@)
        ||| (named_as(d, id, "face"@, 2) || named_as(d, id, "loop"@, 1)) && !names_kind(d, id, "loop"@)
        ||| (named_as(d, id, "loop"@, 2) || named_as(d, id, "coedge"@, 1)) && !names_kind(
            d,
            id,
            "coedge"@,
        )
        ||| named_as(d, id, "coedge"@, 4) && !names_kind(d, id, "edge"@)
        ||| (named_as(d, id, "edge"@, 1) || named_as(d, id, "edge"@, 3)) && !names_kind(d, id, "vertex"@)
        ||| named_as(d, id, "vertex"@, 2) && point_at(d, id) is None
    }
}

/// The coedge record at which the ring walk from `id`, with `made` coedges
/// made so far, is cut because it has made more coedges than the document
/// has records without coming back to `first`; none when it ends otherwise.
pub open spec fn ring_cut(
    d: Seq<RecordView>,
    reads: Seq<Reading>,
    first: int,
    id: int,
    made: nat,
    fuel: nat,
) -> Option<int>
    decreases fuel,
{
    if fuel == 0 || !names_kind(d, id, "coedge"@) {
        None
    } else {
        let r = named(d, id);
        let here: nat = if edge_lifts(d, reads, link(r, 4)) {
            1
        } else {
            0
        };
        let next = link(r, 1);
        if next == first || next < 0 {
            None
        } else if made + here > d.len() {
            Some(id)
        } else {
            ring_cut(d, reads, first, next, made + here, (fuel - 1) as nat)
        }
    }
}

/// Whether record `id` is where the ring of some loop record is cut.
pub open spec fn cuts_a_ring(d: Seq<RecordView>, reads: Seq<Reading>, id: int) -> bool {
    exists|j: int|
        0 <= j < d.len() && d[j].kind == "loop"@ && #[trigger] ring_cut(
            d,
            reads,
            link(d[j], 2),
            link(d[j], 2),
            0,
            ring_fuel(d.len()),
        ) == Some(id)
}

/// Whether a record is one the walk reports as broken: misplaced, or where a
/// ring that never closes is cut.
pub open spec fn fault(d: Seq<RecordView>, reads: Seq<Reading>, id: int) -> bool {
    misplaced(d, id) || cuts_a_ring(d, reads, id)
}

/// Whether every id listed is a fault.
pub open spec fn faults_all(d: Seq<RecordView>, reads: Seq<Reading>, ids: Seq<usize>) -> bool {
    forall|j: int| 0 <= j < ids.len() ==> fault(d, reads, #[trigger] ids[j] as int)
}

/// Whether what a loss lists is what it says it is.
pub open spec fn loss_from(d: Seq<RecordView>, reads: Seq<Reading>, loss: Loss) -> bool {
    &&& unread_curves_all(d, reads, loss.curves@)
    &&& unread_surfaces_all(d, reads, loss.surfaces@)
    &&& faults_all(d, reads, loss.broken@)
}

// ---------------------------------------------------------------------------
// What a lifted node is, given the record it came from.

/// The record ids the nodes of the arenas without provenance of their own
/// came from, and those of the vertices and edges.
pub struct LiftIds {
    pub vertices: Seq<i32>,
    pub edges: Seq<i32>,
    pub curves: Seq<i32>,
    pub surfaces: Seq<i32>,
}

pub open spec fn distinct_ids(s: Seq<i32>) -> bool {
    forall|i: int, j: int| 0 <= i < j < s.len() ==> #[trigger] s[i] != #[trigger] s[j]
}

pub open spec fn vertex_from(d: Seq<RecordView>, v: Vertex, id: i32) -> bool {
    &&& id >= 0
    &&& v.provenance == lifted_provenance(id as int)
    &&& vertex_point(d, id as int) == Some((v.point[0], v.point[1], v.point[2]))
}

/// A curve node holds the record form of the record it came from, whether or
/// not the kernel can read it.
pub open spec fn curve_from(d: Seq<RecordView>, g: Option<GeometryRecord>, id: i32) -> bool {
    id >= 0 && in_document(d, id as int) && holds_form(g, named(d, id as int))
}

/// Whether every curve record made into a node that the kernel cannot read
/// is in the loss.
pub open spec fn curves_noted(d: Seq<RecordView>, reads: Seq<Reading>, curves: Seq<i32>, lost: Seq<usize>) -> bool {
    forall|k: int|
        0 <= k < curves.len() && unread_curve(d, reads, curves[k] as int) ==> lost.contains(
            #[trigger] curves[k] as usize,
        )
}

pub open spec fn geometry_from(
    d: Seq<RecordView>,
    reads: Seq<Reading>,
    g: Option<GeometryRecord>,
    id: i32,
) -> bool {
    id >= 0 && surface_lifts(d, reads, id as int) && holds_form(g, named(d, id as int))
}

/// The parameters of an edge record's start and end vertices: where the
/// kernel places them on the edge's curve, when it does, and otherwise the
/// two the record stores.
pub open spec fn edge_parameters(d: Seq<RecordView>, reads: Seq<Reading>, id: int) -> (u64, u64) {
    let slot = resolve_slot(d, id as i32);
    if slot is Some && slot->Some_0 < reads.len() && reads[slot->Some_0].placed is Some {
        reads[slot->Some_0].placed->Some_0
    } else {
        (float_field(named(d, id), 2), float_field(named(d, id), 4))
    }
}

/// An edge runs from the smaller of its two parameters to the larger; its
/// record stores them in its curve's own direction.
pub open spec fn edge_from(d: Seq<RecordView>, reads: Seq<Reading>, b: Body, ids: LiftIds, e: int) -> bool {
    let edge = b.edges@[e];
    let id = ids.edges[e];
    let r = named(d, id as int);
    let a = edge_parameters(d, reads, id as int).0;
    let z = edge_parameters(d, reads, id as int).1;
    let ordered = float_le(a, z);
    &&& id >= 0
    &&& edge.provenance == lifted_provenance(id as int)
    &&& edge_lifts(d, reads, id as int)
    &&& edge.curve < b.curves@.len()
    &&& ids.curves[edge.curve as int] == link(r, 6)
    &&& edge.start < b.vertices@.len()
    &&& edge.end < b.vertices@.len()
    &&& ids.vertices[edge.start as int] == (if ordered { link(r, 1) } else { link(r, 3) })
    &&& ids.vertices[edge.end as int] == (if ordered { link(r, 3) } else { link(r, 1) })
    &&& edge.start_parameter == (if ordered { a } else { z })
    &&& edge.end_parameter == (if ordered { z } else { a })
    &&& all_below(edge.coedges@, b.coedges@.len() as int)
    &&& no_repeats(edge.coedges@)
    &&& forall|j: int|
        0 <= j < edge.coedges@.len() ==> b.coedges@[#[trigger] edge.coedges@[j] as int].edge == e
}

pub open spec fn coedge_from(d: Seq<RecordView>, b: Body, ids: LiftIds, c: int) -> bool {
    let co = b.coedges@[c];
    let id = source_id(co.provenance);
    let r = named(d, id);
    &&& co.provenance is Clean
    &&& names_kind(d, id, "coedge"@)
    &&& co.edge < b.edges@.len()
    &&& ids.edges[co.edge as int] == link(r, 4)
    &&& b.edges@[co.edge as int].coedges@.contains(c as usize)
    &&& co.forward == forward_field(r, 5)
    &&& co.owner < b.loops@.len()
    &&& b.loops@[co.owner as int].coedges@.contains(c as usize)
}

pub open spec fn loop_from(d: Seq<RecordView>, b: Body, l: int) -> bool {
    let ring = b.loops@[l];
    let id = source_id(ring.provenance);
    &&& ring.provenance is Clean
    &&& names_kind(d, id, "loop"@)
    &&& ring.owner < b.faces@.len()
    &&& b.faces@[ring.owner as int].loops@.contains(l as usize)
    &&& all_below(ring.coedges@, b.coedges@.len() as int)
    &&& no_repeats(ring.coedges@)
    &&& forall|j: int|
        0 <= j < ring.coedges@.len() ==> b.coedges@[#[trigger] ring.coedges@[j] as int].owner == l
}

pub open spec fn face_from(d: Seq<RecordView>, b: Body, ids: LiftIds, f: int) -> bool {
    let face = b.faces@[f];
    let id = source_id(face.provenance);
    let r = named(d, id);
    &&& face.provenance is Clean
    &&& names_kind(d, id, "face"@)
    &&& face.surface < b.surfaces@.len()
    &&& ids.surfaces[face.surface as int] == link(r, 5)
    &&& face.forward == forward_field(r, 6)
    &&& face.owner < b.shells@.len()
    &&& b.shells@[face.owner as int].faces@.contains(f as usize)
    &&& all_below(face.loops@, b.loops@.len() as int)
    &&& no_repeats(face.loops@)
    &&& forall|j: int|
        0 <= j < face.loops@.len() ==> b.loops@[#[trigger] face.loops@[j] as int].owner == f
}

pub open spec fn shell_from(d: Seq<RecordView>, b: Body, s: int) -> bool {
    let shell = b.shells@[s];
    &&& shell.provenance is Clean
    &&& names_kind(d, source_id(shell.provenance), "shell"@)
    &&& shell.owner < b.lumps@.len()
    &&& b.lumps@[shell.owner as int].shells@.contains(s as usize)
    &&& all_below(shell.faces@, b.faces@.len() as int)
    &&& no_repeats(shell.faces@)
    &&& forall|j: int|
        0 <= j < shell.faces@.len() ==> b.faces@[#[trigger] shell.faces@[j] as int].owner == s
}

pub open spec fn lump_from(d: Seq<RecordView>, b: Body, u: int) -> bool {
    let lump = b.lumps@[u];
    &&& lump.provenance is Clean
    &&& names_kind(d, source_id(lump.provenance), "lump"@)
    &&& b.roots@.contains(u as usize)
    &&& all_below(lump.shells@, b.shells@.len() as int)
    &&& no_repeats(lump.shells@)
    &&& forall|j: int|
        0 <= j < lump.shells@.len() ==> b.shells@[#[trigger] lump.shells@[j] as int].owner == u
}

/// Whether vertex node `k` is an end of some edge node.
pub open spec fn ends_an_edge(b: Body, k: int) -> bool {
    exists|e: int| 0 <= e < b.edges@.len() && ((#[trigger] b.edges@[e]).start == k || b.edges@[e].end == k)
}

/// Whether curve node `k` is the curve of some edge node.
pub open spec fn carries_an_edge(b: Body, k: int) -> bool {
    exists|e: int| 0 <= e < b.edges@.len() && (#[trigger] b.edges@[e]).curve == k
}

/// Whether surface node `k` is the surface of some face node.
pub open spec fn bounds_a_face(b: Body, k: int) -> bool {
    exists|f: int| 0 <= f < b.faces@.len() && (#[trigger] b.faces@[f]).surface == k
}

/// Whether vertex record `id` is named by an edge record whose other vertex
/// does not lift: the walk made the vertex, then could not make the edge.
pub open spec fn left_by_an_edge(d: Seq<RecordView>, id: int) -> bool {
    exists|j: int|
        0 <= j < d.len() && (#[trigger] d[j]).kind == "edge"@ && ((link(d[j], 1) == id && vertex_point(
            d,
            link(d[j], 3),
        ) is None) || (link(d[j], 3) == id && vertex_point(d, link(d[j], 1)) is None))
}

/// Whether curve record `id` is named by an edge record one of whose
/// vertices does not lift: the walk made the curve, then could not make the
/// edge.
pub open spec fn curve_left_by_an_edge(d: Seq<RecordView>, id: int) -> bool {
    exists|j: int|
        0 <= j < d.len() && (#[trigger] d[j]).kind == "edge"@ && link(d[j], 6) == id && (vertex_point(
            d,
            link(d[j], 1),
        ) is None || vertex_point(d, link(d[j], 3)) is None)
}

/// Whether every node in the arenas is one the walk reached: each edge is
/// run along by a coedge (save edge `x`, just made), each surface bounds a
/// face, and each vertex and curve belongs to an edge, or was made for an
/// edge record that then did not lift.
pub open spec fn arenas_reached_but(d: Seq<RecordView>, b: Body, ids: LiftIds, x: int) -> bool {
    &&& forall|e: int| 0 <= e < b.edges@.len() && e != x ==> (#[trigger] b.edges@[e]).coedges@.len() > 0
    &&& forall|k: int| 0 <= k < b.surfaces@.len() ==> #[trigger] bounds_a_face(b, k)
    &&& forall|k: int|
        0 <= k < b.vertices@.len() ==> #[trigger] ends_an_edge(b, k) || left_by_an_edge(
            d,
            ids.vertices[k] as int,
        )
    &&& forall|k: int|
        0 <= k < b.curves@.len() ==> #[trigger] carries_an_edge(b, k) || curve_left_by_an_edge(
            d,
            ids.curves[k] as int,
        )
}

pub open spec fn arenas_reached(d: Seq<RecordView>, b: Body, ids: LiftIds) -> bool {
    arenas_reached_but(d, b, ids, -1)
}

/// An edge record whose vertices do not both lift leaves what it named.
proof fn lemma_left_by(d: Seq<RecordView>, j: int)
    requires
        0 <= j < d.len(),
        d[j].kind == "edge"@,
    ensures
        vertex_point(d, link(d[j], 1)) is None || vertex_point(d, link(d[j], 3)) is None
            ==> curve_left_by_an_edge(d, link(d[j], 6)),
        vertex_point(d, link(d[j], 3)) is None ==> left_by_an_edge(d, link(d[j], 1)),
{
}

/// Arenas that keep their vertices, curves and edges' ends and curves, and
/// whose faces keep their surfaces, still hold only reached nodes, given
/// that every edge but `x2` has a coedge and every new surface bounds a face.
proof fn lemma_arenas_kept(d: Seq<RecordView>, b1: Body, ids1: LiftIds, x1: int, b2: Body, ids2: LiftIds, x2: int)
    requires
        arenas_reached_but(d, b1, ids1, x1),
        b1.vertices@.len() <= b2.vertices@.len(),
        forall|k: int| 0 <= k < b1.vertices@.len() ==> #[trigger] ids2.vertices[k] == ids1.vertices[k],
        forall|k: int|
            b1.vertices@.len() <= k < b2.vertices@.len() ==> #[trigger] ends_an_edge(b2, k) || left_by_an_edge(
                d,
                ids2.vertices[k] as int,
            ),
        b1.curves@.len() <= b2.curves@.len(),
        forall|k: int| 0 <= k < b1.curves@.len() ==> #[trigger] ids2.curves[k] == ids1.curves[k],
        forall|k: int|
            b1.curves@.len() <= k < b2.curves@.len() ==> #[trigger] carries_an_edge(b2, k)
                || curve_left_by_an_edge(d, ids2.curves[k] as int),
        b1.surfaces@.len() <= b2.surfaces@.len(),
        forall|k: int| b1.surfaces@.len() <= k < b2.surfaces@.len() ==> #[trigger] bounds_a_face(b2, k),
        b1.edges@.len() <= b2.edges@.len(),
        forall|e: int|
            0 <= e < b1.edges@.len() ==> (#[trigger] b2.edges@[e]).start == b1.edges@[e].start
                && b2.edges@[e].end == b1.edges@[e].end && b2.edges@[e].curve == b1.edges@[e].curve,
        forall|e: int| 0 <= e < b2.edges@.len() && e != x2 ==> (#[trigger] b2.edges@[e]).coedges@.len() > 0,
        b1.faces@.len() <= b2.faces@.len(),
        forall|f: int| 0 <= f < b1.faces@.len() ==> (#[trigger] b2.faces@[f]).surface == b1.faces@[f].surface,
    ensures
        arenas_reached_but(d, b2, ids2, x2),
{
    assert forall|k: int| 0 <= k < b2.surfaces@.len() implies #[trigger] bounds_a_face(b2, k) by {
        if k < b1.surfaces@.len() {
            assert(bounds_a_face(b1, k));
            let f = choose|f: int| 0 <= f < b1.faces@.len() && (#[trigger] b1.faces@[f]).surface == k;
            assert(b2.faces@[f].surface == k);
        }
    }
    assert forall|k: int| 0 <= k < b2.vertices@.len() implies #[trigger] ends_an_edge(b2, k) || left_by_an_edge(
        d,
        ids2.vertices[k] as int,
    ) by {
        if k < b1.vertices@.len() && ends_an_edge(b1, k) {
            let e = choose|e: int|
                0 <= e < b1.edges@.len() && ((#[trigger] b1.edges@[e]).start == k || b1.edges@[e].end == k);
            assert(b2.edges@[e].start == b1.edges@[e].start);
        }
    }
    assert forall|k: int| 0 <= k < b2.curves@.len() implies #[trigger] carries_an_edge(b2, k)
        || curve_left_by_an_edge(d, ids2.curves[k] as int) by {
        if k < b1.curves@.len() && carries_an_edge(b1, k) {
            let e = choose|e: int| 0 <= e < b1.edges@.len() && (#[trigger] b1.edges@[e]).curve == k;
            assert(b2.edges@[e].curve == b1.edges@[e].curve);
        }
    }
}

/// Every node of a body is what the record it came from says, the nodes
/// join up into one tree, and no record became two vertices, edges, curves
/// or surfaces.
pub open spec fn nodes_from(d: Seq<RecordView>, reads: Seq<Reading>, b: Body, ids: LiftIds) -> bool {
    &&& ids.vertices.len() == b.vertices@.len()
    &&& ids.edges.len() == b.edges@.len()
    &&& ids.curves.len() == b.curves@.len()
    &&& ids.surfaces.len() == b.surfaces@.len()
    &&& distinct_ids(ids.vertices)
    &&& distinct_ids(ids.edges)
    &&& distinct_ids(ids.curves)
    &&& distinct_ids(ids.surfaces)
    &&& forall|k: int|
        0 <= k < b.vertices@.len() ==> vertex_from(d, #[trigger] b.vertices@[k], ids.vertices[k])
    &&& forall|k: int|
        0 <= k < b.curves@.len() ==> curve_from(d, #[trigger] b.curves@[k], ids.curves[k])
    &&& forall|k: int|
        0 <= k < b.surfaces@.len() ==> geometry_from(
            d,
            reads,
            #[trigger] b.surfaces@[k],
            ids.surfaces[k],
        )
    &&& forall|e: int| 0 <= e < b.edges@.len() ==> #[trigger] edge_from(d, reads, b, ids, e)
    &&& forall|c: int| 0 <= c < b.coedges@.len() ==> #[trigger] coedge_from(d, b, ids, c)
    &&& forall|l: int| 0 <= l < b.loops@.len() ==> #[trigger] loop_from(d, b, l)
    &&& forall|f: int| 0 <= f < b.faces@.len() ==> #[trigger] face_from(d, b, ids, f)
    &&& forall|s: int| 0 <= s < b.shells@.len() ==> #[trigger] shell_from(d, b, s)
    &&& forall|u: int| 0 <= u < b.lumps@.len() ==> #[trigger] lump_from(d, b, u)
    &&& all_below(b.roots@, b.lumps@.len() as int)
    &&& no_repeats(b.roots@)
}

/// A lifted body can be written back out whole: its topology holds together.
pub proof fn lemma_lifted_topology_is_writable(
    d: Seq<RecordView>,
    reads: Seq<Reading>,
    b: Body,
    ids: LiftIds,
)
    requires
        nodes_from(d, reads, b, ids),
    ensures
        writable_topology(b),
{
    assert forall|e: int| 0 <= e < b.edges@.len() implies #[trigger] edge_ok(b, e) by {
        assert(edge_from(d, reads, b, ids, e));
    }
    assert forall|c: int| 0 <= c < b.coedges@.len() implies #[trigger] coedge_ok(b, c) by {
        assert(coedge_from(d, b, ids, c));
    }
    assert forall|l: int| 0 <= l < b.loops@.len() implies #[trigger] loop_ok(b, l) by {
        assert(loop_from(d, b, l));
    }
    assert forall|f: int| 0 <= f < b.faces@.len() implies #[trigger] face_ok(b, f) by {
        assert(face_from(d, b, ids, f));
    }
    assert forall|s: int| 0 <= s < b.shells@.len() implies #[trigger] shell_ok(b, s) by {
        assert(shell_from(d, b, s));
    }
    assert forall|u: int| 0 <= u < b.lumps@.len() implies #[trigger] lump_ok(b, u) by {
        assert(lump_from(d, b, u));
    }
}

// ---------------------------------------------------------------------------
// What the walk visits.

/// The ids along a linked list of records of one kind, starting at `id` and
/// following token `next`: it ends at a pointer that names no record of that
/// kind, or after `fuel` records.
pub open spec fn chain(d: Seq<RecordView>, id: int, kind: Seq<char>, next: int, fuel: nat) -> Seq<int>
    decreases fuel,
{
    if fuel == 0 || !names_kind(d, id, kind) {
        Seq::empty()
    } else {
        seq![id] + chain(d, link(named(d, id), next), kind, next, (fuel - 1) as nat)
    }
}

/// The ids along a shell's list of faces that are kept: those whose surface
/// is readable.
pub open spec fn face_chain(d: Seq<RecordView>, reads: Seq<Reading>, id: int, fuel: nat) -> Seq<int>
    decreases fuel,
{
    if fuel == 0 || !names_kind(d, id, "face"@) {
        Seq::empty()
    } else {
        let rest = face_chain(d, reads, link(named(d, id), 1), (fuel - 1) as nat);
        if surface_lifts(d, reads, link(named(d, id), 5)) {
            seq![id] + rest
        } else {
            rest
        }
    }
}

/// The ids of the coedges a loop's ring makes, walking from `id` with `made`
/// made so far: one for each coedge record whose edge lifts. The walk ends
/// at a pointer that names no coedge record, when the next pointer is null
/// or comes back to `first`, once more coedges have been made than the
/// document has records, or after `fuel` records.
pub open spec fn ring_chain(
    d: Seq<RecordView>,
    reads: Seq<Reading>,
    first: int,
    id: int,
    made: nat,
    fuel: nat,
) -> Seq<int>
    decreases fuel,
{
    if fuel == 0 || !names_kind(d, id, "coedge"@) {
        Seq::empty()
    } else {
        let r = named(d, id);
        let here: Seq<int> = if edge_lifts(d, reads, link(r, 4)) {
            seq![id]
        } else {
            Seq::empty()
        };
        let next = link(r, 1);
        if next == first || next < 0 || made + here.len() > d.len() {
            here
        } else {
            here + ring_chain(d, reads, first, next, made + here.len(), (fuel - 1) as nat)
        }
    }
}

/// How many records a ring walk may visit in a document of `n` records.
pub open spec fn ring_fuel(n: nat) -> nat {
    n * (n + 2)
}

/// The ids of the nodes a list names, given each node's id.
pub open spec fn listed(sources: Seq<int>, list: Seq<usize>) -> Seq<int> {
    list.map_values(|j: usize| sources[j as int])
}

pub open spec fn coedge_sources(a: Seq<Coedge>) -> Seq<int> {
    a.map_values(|x: Coedge| source_id(x.provenance))
}

pub open spec fn loop_sources(a: Seq<Loop>) -> Seq<int> {
    a.map_values(|x: Loop| source_id(x.provenance))
}

pub open spec fn face_sources(a: Seq<Face>) -> Seq<int> {
    a.map_values(|x: Face| source_id(x.provenance))
}

pub open spec fn shell_sources(a: Seq<Shell>) -> Seq<int> {
    a.map_values(|x: Shell| source_id(x.provenance))
}

pub open spec fn lump_sources(a: Seq<Lump>) -> Seq<int> {
    a.map_values(|x: Lump| source_id(x.provenance))
}

/// A loop lists the coedges its record's ring makes, in ring order.
pub open spec fn ring_complete(
    d: Seq<RecordView>,
    reads: Seq<Reading>,
    coedges: Seq<int>,
    loops: Seq<Loop>,
    l: int,
) -> bool {
    let first = link(named(d, source_id(loops[l].provenance)), 2);
    listed(coedges, loops[l].coedges@) == ring_chain(d, reads, first, first, 0, ring_fuel(d.len()))
}

/// A face lists the loops along its record's list, in order.
pub open spec fn face_complete(d: Seq<RecordView>, loops: Seq<int>, faces: Seq<Face>, f: int) -> bool {
    let first = link(named(d, source_id(faces[f].provenance)), 2);
    listed(loops, faces[f].loops@) == chain(d, first, "loop"@, 1, d.len())
}

/// A shell lists the kept faces along its record's list, in order.
pub open spec fn shell_complete(
    d: Seq<RecordView>,
    reads: Seq<Reading>,
    faces: Seq<int>,
    shells: Seq<Shell>,
    s: int,
) -> bool {
    let first = link(named(d, source_id(shells[s].provenance)), 3);
    listed(faces, shells[s].faces@) == face_chain(d, reads, first, d.len())
}

/// A lump lists the shells along its record's list, in order.
pub open spec fn lump_complete(d: Seq<RecordView>, shells: Seq<int>, lumps: Seq<Lump>, u: int) -> bool {
    let first = link(named(d, source_id(lumps[u].provenance)), 2);
    listed(shells, lumps[u].shells@) == chain(d, first, "shell"@, 1, d.len())
}

pub open spec fn rings_complete_except(
    d: Seq<RecordView>,
    reads: Seq<Reading>,
    coedges: Seq<int>,
    loops: Seq<Loop>,
    x: int,
) -> bool {
    forall|l: int| 0 <= l < loops.len() && l != x ==> #[trigger] ring_complete(d, reads, coedges, loops, l)
}

pub open spec fn faces_complete_except(d: Seq<RecordView>, loops: Seq<int>, faces: Seq<Face>, x: int) -> bool {
    forall|f: int| 0 <= f < faces.len() && f != x ==> #[trigger] face_complete(d, loops, faces, f)
}

pub open spec fn shells_complete_except(
    d: Seq<RecordView>,
    reads: Seq<Reading>,
    faces: Seq<int>,
    shells: Seq<Shell>,
    x: int,
) -> bool {
    forall|s: int| 0 <= s < shells.len() && s != x ==> #[trigger] shell_complete(d, reads, faces, shells, s)
}

pub open spec fn lumps_complete_except(d: Seq<RecordView>, shells: Seq<int>, lumps: Seq<Lump>, x: int) -> bool {
    forall|u: int| 0 <= u < lumps.len() && u != x ==> #[trigger] lump_complete(d, shells, lumps, u)
}

/// Every list in a body names exactly what the walk from its record visits:
/// a body's lumps from `first`, each lump's shells, each shell's kept faces,
/// each face's loops and each loop's ring.
pub open spec fn walk_complete(d: Seq<RecordView>, reads: Seq<Reading>, b: Body, first: int) -> bool {
    &&& listed(lump_sources(b.lumps@), b.roots@) == chain(d, first, "lump"@, 1, d.len())
    &&& lumps_complete_except(d, shell_sources(b.shells@), b.lumps@, -1)
    &&& shells_complete_except(d, reads, face_sources(b.faces@), b.shells@, -1)
    &&& faces_complete_except(d, loop_sources(b.loops@), b.faces@, -1)
    &&& rings_complete_except(d, reads, coedge_sources(b.coedges@), b.loops@, -1)
}

proof fn lemma_listed_push(sources: Seq<int>, x: int, list: Seq<usize>)
    requires
        all_below(list, sources.len() as int),
    ensures
        listed(sources.push(x), list) == listed(sources, list),
{
    assert(listed(sources.push(x), list) =~= listed(sources, list));
}

proof fn lemma_listed_extend(sources: Seq<int>, x: int, list: Seq<usize>)
    requires
        all_below(list, sources.len() as int),
        sources.len() <= usize::MAX,
    ensures
        listed(sources.push(x), list.push(sources.len() as usize)) == listed(sources, list).push(x),
{
    assert(listed(sources.push(x), list.push(sources.len() as usize)) =~= listed(sources, list).push(x));
}

// ---------------------------------------------------------------------------
// What the walk reports.

/// Whether a pointer names a record of the document that the kernel cannot
/// read as a surface.
pub open spec fn unread_surface(d: Seq<RecordView>, reads: Seq<Reading>, id: int) -> bool {
    in_document(d, id) && !surface_lifts(d, reads, id)
}

/// Whether a pointer names a record of the document that the kernel cannot
/// read as a curve.
pub open spec fn unread_curve(d: Seq<RecordView>, reads: Seq<Reading>, id: int) -> bool {
    in_document(d, id) && !curve_lifts(d, reads, id)
}

/// Whether `b` is `a` with more after it.
pub open spec fn grows(a: Seq<usize>, b: Seq<usize>) -> bool {
    a.len() <= b.len() && forall|i: int| 0 <= i < a.len() ==> #[trigger] b[i] == a[i]
}

/// The ids of the coedge records a ring walk visits from `id`, with `made`
/// coedges made so far: every coedge record it reads, stopping where the
/// walk stops.
pub open spec fn ring_visits(
    d: Seq<RecordView>,
    reads: Seq<Reading>,
    first: int,
    id: int,
    made: nat,
    fuel: nat,
) -> Seq<int>
    decreases fuel,
{
    if fuel == 0 || !names_kind(d, id, "coedge"@) {
        Seq::empty()
    } else {
        let r = named(d, id);
        let here: nat = if edge_lifts(d, reads, link(r, 4)) {
            1
        } else {
            0
        };
        let next = link(r, 1);
        if next == first || next < 0 || made + here > d.len() {
            seq![id]
        } else {
            seq![id] + ring_visits(d, reads, first, next, made + here, (fuel - 1) as nat)
        }
    }
}

/// The face records the walk of a shell's faces visits.
pub open spec fn face_visits(d: Seq<RecordView>, shell: int) -> Seq<int> {
    chain(d, link(named(d, shell), 3), "face"@, 1, d.len())
}

/// The coedge records the walk of a loop's ring visits.
pub open spec fn coedge_visits(d: Seq<RecordView>, reads: Seq<Reading>, ring: int) -> Seq<int> {
    let first = link(named(d, ring), 2);
    ring_visits(d, reads, first, first, 0, ring_fuel(d.len()))
}

/// A face record whose surface the kernel cannot read has that surface in
/// the loss.
pub open spec fn surface_reported(d: Seq<RecordView>, reads: Seq<Reading>, face: int, lost: Seq<usize>) -> bool {
    let surface = link(named(d, face), 5);
    unread_surface(d, reads, surface) ==> lost.contains(surface as usize)
}

/// A coedge record whose edge record names a curve the kernel cannot read
/// has that curve in the loss.
pub open spec fn curve_reported(d: Seq<RecordView>, reads: Seq<Reading>, coedge: int, lost: Seq<usize>) -> bool {
    let edge = link(named(d, coedge), 4);
    let curve = link(named(d, edge), 6);
    names_kind(d, edge, "edge"@) && unread_curve(d, reads, curve) ==> lost.contains(curve as usize)
}

pub open spec fn shell_reported(d: Seq<RecordView>, reads: Seq<Reading>, shell: int, lost: Seq<usize>) -> bool {
    forall|k: int|
        0 <= k < face_visits(d, shell).len() ==> surface_reported(d, reads, #[trigger] face_visits(d, shell)[k], lost)
}

pub open spec fn ring_reported(d: Seq<RecordView>, reads: Seq<Reading>, ring: int, lost: Seq<usize>) -> bool {
    forall|k: int|
        0 <= k < coedge_visits(d, reads, ring).len() ==> curve_reported(
            d,
            reads,
            #[trigger] coedge_visits(d, reads, ring)[k],
            lost,
        )
}

/// Every shell but `x` has reported the unreadable surfaces of the faces its
/// walk visited.
pub open spec fn surfaces_reported(
    d: Seq<RecordView>,
    reads: Seq<Reading>,
    shells: Seq<int>,
    lost: Seq<usize>,
    x: int,
) -> bool {
    forall|s: int| 0 <= s < shells.len() && s != x ==> #[trigger] shell_reported(d, reads, shells[s], lost)
}

/// Every loop but `x` has reported the unreadable curves of the edges its
/// ring walk visited.
pub open spec fn curves_reported(
    d: Seq<RecordView>,
    reads: Seq<Reading>,
    loops: Seq<int>,
    lost: Seq<usize>,
    x: int,
) -> bool {
    forall|l: int| 0 <= l < loops.len() && l != x ==> #[trigger] ring_reported(d, reads, loops[l], lost)
}

/// Whether a misplaced vertex record, or the point record a vertex record
/// names when it is not a point with a position, is in the list of broken
/// records.
pub open spec fn vertex_reported(d: Seq<RecordView>, v: int, broken: Seq<usize>) -> bool {
    let p = link(named(d, v), 2);
    &&& in_document(d, v) && !names_kind(d, v, "vertex"@) ==> broken.contains(v as usize)
    &&& names_kind(d, v, "vertex"@) && in_document(d, p) && point_at(d, p) is None ==> broken.contains(
        p as usize,
    )
}

/// Whether what the walk finds wrong behind an edge pointer is in the list
/// of broken records: a record that is not an edge, or, for an edge record
/// whose curve record is there, its start vertex, and, when that lifts, its
/// end vertex.
pub open spec fn edge_reported(d: Seq<RecordView>, e: int, broken: Seq<usize>) -> bool {
    let r = named(d, e);
    &&& in_document(d, e) && !names_kind(d, e, "edge"@) ==> broken.contains(e as usize)
    &&& names_kind(d, e, "edge"@) && in_document(d, link(r, 6)) ==> vertex_reported(d, link(r, 1), broken)
        && (vertex_point(d, link(r, 1)) is Some ==> vertex_reported(d, link(r, 3), broken))
}

/// The record at which the ring walk from `id` stops because it is not a
/// coedge record, or -1 when the walk ends otherwise.
pub open spec fn ring_stop(
    d: Seq<RecordView>,
    reads: Seq<Reading>,
    first: int,
    id: int,
    made: nat,
    fuel: nat,
) -> int
    decreases fuel,
{
    if fuel == 0 {
        -1
    } else if !names_kind(d, id, "coedge"@) {
        id
    } else {
        let r = named(d, id);
        let here: nat = if edge_lifts(d, reads, link(r, 4)) {
            1
        } else {
            0
        };
        let next = link(r, 1);
        if next == first || next < 0 || made + here > d.len() {
            -1
        } else {
            ring_stop(d, reads, first, next, made + here, (fuel - 1) as nat)
        }
    }
}

proof fn lemma_vertex_still_reported(d: Seq<RecordView>, v: int, b1: Seq<usize>, b2: Seq<usize>)
    requires
        vertex_reported(d, v, b1),
        grows(b1, b2),
    ensures
        vertex_reported(d, v, b2),
{
    let p = link(named(d, v), 2);
    if in_document(d, v) && !names_kind(d, v, "vertex"@) {
        lemma_grows_contains(b1, b2, v as usize);
    }
    if names_kind(d, v, "vertex"@) && in_document(d, p) && point_at(d, p) is None {
        lemma_grows_contains(b1, b2, p as usize);
    }
}

proof fn lemma_edge_still_reported(d: Seq<RecordView>, e: int, b1: Seq<usize>, b2: Seq<usize>)
    requires
        edge_reported(d, e, b1),
        grows(b1, b2),
    ensures
        edge_reported(d, e, b2),
{
    let r = named(d, e);
    if in_document(d, e) && !names_kind(d, e, "edge"@) {
        lemma_grows_contains(b1, b2, e as usize);
    }
    if names_kind(d, e, "edge"@) && in_document(d, link(r, 6)) {
        lemma_vertex_still_reported(d, link(r, 1), b1, b2);
        if vertex_point(d, link(r, 1)) is Some {
            lemma_vertex_still_reported(d, link(r, 3), b1, b2);
        }
    }
}

/// The record at which a list walk from `id` stops because it is not of
/// `kind`, or -1 when the walk ends otherwise.
pub open spec fn chain_stop(d: Seq<RecordView>, id: int, kind: Seq<char>, next: int, fuel: nat) -> int
    decreases fuel,
{
    if fuel == 0 {
        -1
    } else if !names_kind(d, id, kind) {
        id
    } else {
        chain_stop(d, link(named(d, id), next), kind, next, (fuel - 1) as nat)
    }
}

/// Whether the list walk of `kind` from `first` has the record where it
/// stopped, when that is a record of another kind, in the list of broken
/// records.
pub open spec fn stop_reported(d: Seq<RecordView>, first: int, kind: Seq<char>, broken: Seq<usize>) -> bool {
    let stop = chain_stop(d, first, kind, 1, d.len());
    in_document(d, stop) && !names_kind(d, stop, kind) ==> broken.contains(stop as usize)
}

proof fn lemma_stop_still_reported(d: Seq<RecordView>, first: int, kind: Seq<char>, b1: Seq<usize>, b2: Seq<usize>)
    requires
        stop_reported(d, first, kind, b1),
        grows(b1, b2),
    ensures
        stop_reported(d, first, kind, b2),
{
    let stop = chain_stop(d, first, kind, 1, d.len());
    if in_document(d, stop) && !names_kind(d, stop, kind) {
        lemma_grows_contains(b1, b2, stop as usize);
    }
}

/// Whether the walk of the list of `kind` that node record `owner` starts at
/// token `field` has the record where it stopped, when that is a record of
/// another kind, in the list of broken records.
pub open spec fn list_reported(d: Seq<RecordView>, owner: int, field: int, kind: Seq<char>, broken: Seq<usize>) -> bool {
    let stop = chain_stop(d, link(named(d, owner), field), kind, 1, d.len());
    in_document(d, stop) && !names_kind(d, stop, kind) ==> broken.contains(stop as usize)
}

/// Every owner but `x` has reported where its list walk stopped.
pub open spec fn lists_reported(
    d: Seq<RecordView>,
    owners: Seq<int>,
    field: int,
    kind: Seq<char>,
    broken: Seq<usize>,
    x: int,
) -> bool {
    forall|k: int| 0 <= k < owners.len() && k != x ==> #[trigger] list_reported(d, owners[k], field, kind, broken)
}

proof fn lemma_lists_still_reported(
    d: Seq<RecordView>,
    owners: Seq<int>,
    field: int,
    kind: Seq<char>,
    b1: Seq<usize>,
    b2: Seq<usize>,
    x: int,
)
    requires
        lists_reported(d, owners, field, kind, b1, x),
        grows(b1, b2),
    ensures
        lists_reported(d, owners, field, kind, b2, x),
{
    assert forall|k: int| 0 <= k < owners.len() && k != x implies #[trigger] list_reported(
        d,
        owners[k],
        field,
        kind,
        b2,
    ) by {
        assert(list_reported(d, owners[k], field, kind, b1));
        let stop = chain_stop(d, link(named(d, owners[k]), field), kind, 1, d.len());
        if in_document(d, stop) && !names_kind(d, stop, kind) {
            lemma_grows_contains(b1, b2, stop as usize);
        }
    }
}

/// Whether every coedge record listed has what the walk finds wrong behind
/// its edge pointer in the list of broken records.
pub open spec fn visits_reported(d: Seq<RecordView>, visits: Seq<int>, broken: Seq<usize>) -> bool {
    forall|k: int| 0 <= k < visits.len() ==> edge_reported(d, link(named(d, #[trigger] visits[k]), 4), broken)
}

proof fn lemma_visits_still_reported(d: Seq<RecordView>, visits: Seq<int>, b1: Seq<usize>, b2: Seq<usize>)
    requires
        visits_reported(d, visits, b1),
        grows(b1, b2),
    ensures
        visits_reported(d, visits, b2),
{
    assert forall|k: int| 0 <= k < visits.len() implies edge_reported(
        d,
        link(named(d, #[trigger] visits[k]), 4),
        b2,
    ) by {
        lemma_edge_still_reported(d, link(named(d, visits[k]), 4), b1, b2);
    }
}

/// Whether what the ring walk of a loop record finds wrong is in the list of
/// broken records: the coedge where the ring is cut, the record where the
/// walk stops because it is not a coedge, and what is wrong behind the edge
/// pointer of every coedge record it visits.
pub open spec fn ring_walk_reported(d: Seq<RecordView>, reads: Seq<Reading>, ring: int, broken: Seq<usize>) -> bool {
    let first = link(named(d, ring), 2);
    let stop = ring_stop(d, reads, first, first, 0, ring_fuel(d.len()));
    &&& ring_cut(d, reads, first, first, 0, ring_fuel(d.len())) matches Some(c) ==> broken.contains(c as usize)
    &&& in_document(d, stop) && !names_kind(d, stop, "coedge"@) ==> broken.contains(stop as usize)
    &&& visits_reported(d, coedge_visits(d, reads, ring), broken)
}

/// Every loop but `x` has reported where its ring was cut, if it was.
pub open spec fn ring_walks_reported(
    d: Seq<RecordView>,
    reads: Seq<Reading>,
    loops: Seq<int>,
    broken: Seq<usize>,
    x: int,
) -> bool {
    forall|l: int| 0 <= l < loops.len() && l != x ==> #[trigger] ring_walk_reported(d, reads, loops[l], broken)
}

proof fn lemma_ring_walks_still_reported(
    d: Seq<RecordView>,
    reads: Seq<Reading>,
    loops: Seq<int>,
    b1: Seq<usize>,
    b2: Seq<usize>,
    x: int,
)
    requires
        ring_walks_reported(d, reads, loops, b1, x),
        grows(b1, b2),
    ensures
        ring_walks_reported(d, reads, loops, b2, x),
{
    assert forall|l: int| 0 <= l < loops.len() && l != x implies #[trigger] ring_walk_reported(d, reads, loops[l], b2) by {
        assert(ring_walk_reported(d, reads, loops[l], b1));
        let first = link(named(d, loops[l]), 2);
        if let Some(c) = ring_cut(d, reads, first, first, 0, ring_fuel(d.len())) {
            lemma_grows_contains(b1, b2, c as usize);
        }
        let stop = ring_stop(d, reads, first, first, 0, ring_fuel(d.len()));
        if in_document(d, stop) && !names_kind(d, stop, "coedge"@) {
            lemma_grows_contains(b1, b2, stop as usize);
        }
        lemma_visits_still_reported(d, coedge_visits(d, reads, loops[l]), b1, b2);
    }
}

/// What is not lifted is reported: every unreadable surface a visited face
/// names, and every unreadable curve the edge of a visited coedge names, is
/// in the loss.
pub open spec fn loss_reports(d: Seq<RecordView>, reads: Seq<Reading>, b: Body, loss: Loss) -> bool {
    &&& surfaces_reported(d, reads, shell_sources(b.shells@), loss.surfaces@, -1)
    &&& curves_reported(d, reads, loop_sources(b.loops@), loss.curves@, -1)
    &&& ring_walks_reported(d, reads, loop_sources(b.loops@), loss.broken@, -1)
    &&& lists_reported(d, face_sources(b.faces@), 2, "loop"@, loss.broken@, -1)
    &&& lists_reported(d, shell_sources(b.shells@), 3, "face"@, loss.broken@, -1)
    &&& lists_reported(d, lump_sources(b.lumps@), 2, "shell"@, loss.broken@, -1)
}

proof fn lemma_grows_contains(a: Seq<usize>, b: Seq<usize>, x: usize)
    requires
        grows(a, b),
        a.contains(x),
    ensures
        b.contains(x),
{
    let i = choose|i: int| 0 <= i < a.len() && a[i] == x;
    assert(b[i] == x);
}

proof fn lemma_grows_trans(a: Seq<usize>, b: Seq<usize>, c: Seq<usize>)
    requires
        grows(a, b),
        grows(b, c),
    ensures
        grows(a, c),
{
    assert forall|i: int| 0 <= i < a.len() implies #[trigger] c[i] == a[i] by {
        assert(c[i] == b[i]);
    }
}

proof fn lemma_surfaces_still_reported(
    d: Seq<RecordView>,
    reads: Seq<Reading>,
    shells: Seq<int>,
    a: Seq<usize>,
    b: Seq<usize>,
    x: int,
)
    requires
        surfaces_reported(d, reads, shells, a, x),
        grows(a, b),
    ensures
        surfaces_reported(d, reads, shells, b, x),
{
    assert forall|s: int| 0 <= s < shells.len() && s != x implies #[trigger] shell_reported(
        d,
        reads,
        shells[s],
        b,
    ) by {
        assert(shell_reported(d, reads, shells[s], a));
        assert forall|k: int| 0 <= k < face_visits(d, shells[s]).len() implies surface_reported(
            d,
            reads,
            #[trigger] face_visits(d, shells[s])[k],
            b,
        ) by {
            let face = face_visits(d, shells[s])[k];
            assert(surface_reported(d, reads, face, a));
            let surface = link(named(d, face), 5);
            if unread_surface(d, reads, surface) {
                lemma_grows_contains(a, b, surface as usize);
            }
        }
    }
}

proof fn lemma_curves_still_reported(
    d: Seq<RecordView>,
    reads: Seq<Reading>,
    loops: Seq<int>,
    a: Seq<usize>,
    b: Seq<usize>,
    x: int,
)
    requires
        curves_reported(d, reads, loops, a, x),
        grows(a, b),
    ensures
        curves_reported(d, reads, loops, b, x),
{
    assert forall|l: int| 0 <= l < loops.len() && l != x implies #[trigger] ring_reported(
        d,
        reads,
        loops[l],
        b,
    ) by {
        assert(ring_reported(d, reads, loops[l], a));
        assert forall|k: int| 0 <= k < coedge_visits(d, reads, loops[l]).len() implies curve_reported(
            d,
            reads,
            #[trigger] coedge_visits(d, reads, loops[l])[k],
            b,
        ) by {
            let coedge = coedge_visits(d, reads, loops[l])[k];
            assert(curve_reported(d, reads, coedge, a));
            let edge = link(named(d, coedge), 4);
            let curve = link(named(d, edge), 6);
            if names_kind(d, edge, "edge"@) && unread_curve(d, reads, curve) {
                lemma_grows_contains(a, b, curve as usize);
            }
        }
    }
}

/// Whether the record at slot `s` is a body record whose first lump lifts.
pub open spec fn lifts_body(d: Seq<RecordView>, s: int) -> bool {
    0 <= s < d.len() && d[s].kind == "body"@ && names_kind(d, link(d[s], 1), "lump"@)
}

/// The slots among the first `n` whose body records lift, in order.
pub open spec fn body_slots(d: Seq<RecordView>, n: int) -> Seq<int>
    decreases n,
{
    if n <= 0 {
        Seq::empty()
    } else if lifts_body(d, n - 1) {
        body_slots(d, n - 1).push(n - 1)
    } else {
        body_slots(d, n - 1)
    }
}

/// What a body lifted from a body record is: it remembers that record, it
/// has at least one lump, every list in it names what the walk from that
/// record visits, every node in it is what the record it came from says, and
/// every node in its arenas is one the walk reached.
pub open spec fn lifted_body(d: Seq<RecordView>, reads: Seq<Reading>, source: RecordView, b: Body) -> bool {
    &&& b.provenance == lifted_provenance(source.index as int)
    &&& b.roots@.len() > 0
    &&& walk_complete(d, reads, b, link(source, 1))
    &&& exists|ids: LiftIds| #[trigger] nodes_from(d, reads, b, ids) && arenas_reached(d, b, ids)
}

// ---------------------------------------------------------------------------
// Each step of the walk keeps every node what its record says.

proof fn lemma_add_vertex(
    d: Seq<RecordView>,
    reads: Seq<Reading>,
    b1: Body,
    ids1: LiftIds,
    b2: Body,
    ids2: LiftIds,
    v: Vertex,
    id: i32,
)
    requires
        nodes_from(d, reads, b1, ids1),
        vertex_from(d, v, id),
        !ids1.vertices.contains(id),
        b2.vertices@ == b1.vertices@.push(v),
        ids2.vertices == ids1.vertices.push(id),
        b2.curves@ == b1.curves@ && b2.surfaces@ == b1.surfaces@ && b2.edges@ == b1.edges@,
        b2.coedges@ == b1.coedges@ && b2.loops@ == b1.loops@ && b2.faces@ == b1.faces@,
        b2.shells@ == b1.shells@ && b2.lumps@ == b1.lumps@ && b2.roots@ == b1.roots@,
        ids2.edges == ids1.edges && ids2.curves == ids1.curves && ids2.surfaces == ids1.surfaces,
    ensures
        nodes_from(d, reads, b2, ids2),
{
    assert forall|i: int, j: int| 0 <= i < j < ids2.vertices.len() implies #[trigger] ids2.vertices[i]
        != #[trigger] ids2.vertices[j] by {
        if j == ids1.vertices.len() {
            assert(ids1.vertices[i] == ids2.vertices[i]);
        }
    }
    assert forall|k: int| 0 <= k < b2.vertices@.len() implies vertex_from(
        d,
        #[trigger] b2.vertices@[k],
        ids2.vertices[k],
    ) by {
        if k < b1.vertices@.len() {
            assert(vertex_from(d, b1.vertices@[k], ids1.vertices[k]));
        }
    }
    assert forall|e: int| 0 <= e < b2.edges@.len() implies #[trigger] edge_from(d, reads, b2, ids2, e) by {
        assert(edge_from(d, reads, b1, ids1, e));
    }
    assert forall|c: int| 0 <= c < b2.coedges@.len() implies #[trigger] coedge_from(d, b2, ids2, c) by {
        assert(coedge_from(d, b1, ids1, c));
    }
    assert forall|l: int| 0 <= l < b2.loops@.len() implies #[trigger] loop_from(d, b2, l) by {
        assert(loop_from(d, b1, l));
    }
    assert forall|f: int| 0 <= f < b2.faces@.len() implies #[trigger] face_from(d, b2, ids2, f) by {
        assert(face_from(d, b1, ids1, f));
    }
    assert forall|s: int| 0 <= s < b2.shells@.len() implies #[trigger] shell_from(d, b2, s) by {
        assert(shell_from(d, b1, s));
    }
    assert forall|u: int| 0 <= u < b2.lumps@.len() implies #[trigger] lump_from(d, b2, u) by {
        assert(lump_from(d, b1, u));
    }
}

proof fn lemma_add_curve(
    d: Seq<RecordView>,
    reads: Seq<Reading>,
    b1: Body,
    ids1: LiftIds,
    b2: Body,
    ids2: LiftIds,
    g: Option<GeometryRecord>,
    id: i32,
)
    requires
        nodes_from(d, reads, b1, ids1),
        curve_from(d, g, id),
        !ids1.curves.contains(id),
        b2.curves@ == b1.curves@.push(g),
        ids2.curves == ids1.curves.push(id),
        b2.vertices@ == b1.vertices@ && b2.surfaces@ == b1.surfaces@ && b2.edges@ == b1.edges@,
        b2.coedges@ == b1.coedges@ && b2.loops@ == b1.loops@ && b2.faces@ == b1.faces@,
        b2.shells@ == b1.shells@ && b2.lumps@ == b1.lumps@ && b2.roots@ == b1.roots@,
        ids2.edges == ids1.edges && ids2.vertices == ids1.vertices && ids2.surfaces == ids1.surfaces,
    ensures
        nodes_from(d, reads, b2, ids2),
{
    assert forall|i: int, j: int| 0 <= i < j < ids2.curves.len() implies #[trigger] ids2.curves[i]
        != #[trigger] ids2.curves[j] by {
        if j == ids1.curves.len() {
            assert(ids1.curves[i] == ids2.curves[i]);
        }
    }
    assert forall|k: int| 0 <= k < b2.curves@.len() implies curve_from(
        d,
        #[trigger] b2.curves@[k],
        ids2.curves[k],
    ) by {
        if k < b1.curves@.len() {
            assert(curve_from(d, b1.curves@[k], ids1.curves[k]));
        }
    }
    assert forall|e: int| 0 <= e < b2.edges@.len() implies #[trigger] edge_from(d, reads, b2, ids2, e) by {
        assert(edge_from(d, reads, b1, ids1, e));
    }
    assert forall|c: int| 0 <= c < b2.coedges@.len() implies #[trigger] coedge_from(d, b2, ids2, c) by {
        assert(coedge_from(d, b1, ids1, c));
    }
    assert forall|l: int| 0 <= l < b2.loops@.len() implies #[trigger] loop_from(d, b2, l) by {
        assert(loop_from(d, b1, l));
    }
    assert forall|f: int| 0 <= f < b2.faces@.len() implies #[trigger] face_from(d, b2, ids2, f) by {
        assert(face_from(d, b1, ids1, f));
    }
    assert forall|s: int| 0 <= s < b2.shells@.len() implies #[trigger] shell_from(d, b2, s) by {
        assert(shell_from(d, b1, s));
    }
    assert forall|u: int| 0 <= u < b2.lumps@.len() implies #[trigger] lump_from(d, b2, u) by {
        assert(lump_from(d, b1, u));
    }
}

proof fn lemma_add_surface(
    d: Seq<RecordView>,
    reads: Seq<Reading>,
    b1: Body,
    ids1: LiftIds,
    b2: Body,
    ids2: LiftIds,
    g: Option<GeometryRecord>,
    id: i32,
)
    requires
        nodes_from(d, reads, b1, ids1),
        geometry_from(d, reads, g, id),
        !ids1.surfaces.contains(id),
        b2.surfaces@ == b1.surfaces@.push(g),
        ids2.surfaces == ids1.surfaces.push(id),
        b2.vertices@ == b1.vertices@ && b2.curves@ == b1.curves@ && b2.edges@ == b1.edges@,
        b2.coedges@ == b1.coedges@ && b2.loops@ == b1.loops@ && b2.faces@ == b1.faces@,
        b2.shells@ == b1.shells@ && b2.lumps@ == b1.lumps@ && b2.roots@ == b1.roots@,
        ids2.edges == ids1.edges && ids2.vertices == ids1.vertices && ids2.curves == ids1.curves,
    ensures
        nodes_from(d, reads, b2, ids2),
{
    assert forall|i: int, j: int| 0 <= i < j < ids2.surfaces.len() implies #[trigger] ids2.surfaces[i]
        != #[trigger] ids2.surfaces[j] by {
        if j == ids1.surfaces.len() {
            assert(ids1.surfaces[i] == ids2.surfaces[i]);
        }
    }
    assert forall|k: int| 0 <= k < b2.surfaces@.len() implies geometry_from(
        d,
        reads,
        #[trigger] b2.surfaces@[k],
        ids2.surfaces[k],
    ) by {
        if k < b1.surfaces@.len() {
            assert(geometry_from(d, reads, b1.surfaces@[k], ids1.surfaces[k]));
        }
    }
    assert forall|e: int| 0 <= e < b2.edges@.len() implies #[trigger] edge_from(d, reads, b2, ids2, e) by {
        assert(edge_from(d, reads, b1, ids1, e));
    }
    assert forall|c: int| 0 <= c < b2.coedges@.len() implies #[trigger] coedge_from(d, b2, ids2, c) by {
        assert(coedge_from(d, b1, ids1, c));
    }
    assert forall|l: int| 0 <= l < b2.loops@.len() implies #[trigger] loop_from(d, b2, l) by {
        assert(loop_from(d, b1, l));
    }
    assert forall|f: int| 0 <= f < b2.faces@.len() implies #[trigger] face_from(d, b2, ids2, f) by {
        assert(face_from(d, b1, ids1, f));
    }
    assert forall|s: int| 0 <= s < b2.shells@.len() implies #[trigger] shell_from(d, b2, s) by {
        assert(shell_from(d, b1, s));
    }
    assert forall|u: int| 0 <= u < b2.lumps@.len() implies #[trigger] lump_from(d, b2, u) by {
        assert(lump_from(d, b1, u));
    }
}

proof fn lemma_add_edge(
    d: Seq<RecordView>,
    reads: Seq<Reading>,
    b1: Body,
    ids1: LiftIds,
    b2: Body,
    ids2: LiftIds,
    edge: Edge,
    id: i32,
)
    requires
        nodes_from(d, reads, b1, ids1),
        !ids1.edges.contains(id),
        b2.edges@ == b1.edges@.push(edge),
        ids2.edges == ids1.edges.push(id),
        edge_from(d, reads, b2, ids2, b1.edges@.len() as int),
        b2.vertices@ == b1.vertices@ && b2.curves@ == b1.curves@ && b2.surfaces@ == b1.surfaces@,
        b2.coedges@ == b1.coedges@ && b2.loops@ == b1.loops@ && b2.faces@ == b1.faces@,
        b2.shells@ == b1.shells@ && b2.lumps@ == b1.lumps@ && b2.roots@ == b1.roots@,
        ids2.vertices == ids1.vertices && ids2.curves == ids1.curves && ids2.surfaces == ids1.surfaces,
    ensures
        nodes_from(d, reads, b2, ids2),
{
    assert forall|i: int, j: int| 0 <= i < j < ids2.edges.len() implies #[trigger] ids2.edges[i]
        != #[trigger] ids2.edges[j] by {
        if j == ids1.edges.len() {
            assert(ids1.edges[i] == ids2.edges[i]);
        }
    }
    assert forall|k: int| 0 <= k < b2.vertices@.len() implies vertex_from(
        d,
        #[trigger] b2.vertices@[k],
        ids2.vertices[k],
    ) by {
        assert(vertex_from(d, b1.vertices@[k], ids1.vertices[k]));
    }
    assert forall|e: int| 0 <= e < b2.edges@.len() implies #[trigger] edge_from(d, reads, b2, ids2, e) by {
        if e < b1.edges@.len() {
            assert(edge_from(d, reads, b1, ids1, e));
        }
    }
    assert forall|c: int| 0 <= c < b2.coedges@.len() implies #[trigger] coedge_from(d, b2, ids2, c) by {
        assert(coedge_from(d, b1, ids1, c));
    }
    assert forall|l: int| 0 <= l < b2.loops@.len() implies #[trigger] loop_from(d, b2, l) by {
        assert(loop_from(d, b1, l));
    }
    assert forall|f: int| 0 <= f < b2.faces@.len() implies #[trigger] face_from(d, b2, ids2, f) by {
        assert(face_from(d, b1, ids1, f));
    }
    assert forall|s: int| 0 <= s < b2.shells@.len() implies #[trigger] shell_from(d, b2, s) by {
        assert(shell_from(d, b1, s));
    }
    assert forall|u: int| 0 <= u < b2.lumps@.len() implies #[trigger] lump_from(d, b2, u) by {
        assert(lump_from(d, b1, u));
    }
}

proof fn lemma_push_contains(s: Seq<usize>, x: usize, y: usize)
    requires
        s.contains(y),
    ensures
        s.push(x).contains(y),
{
    let i = choose|i: int| 0 <= i < s.len() && s[i] == y;
    assert(s.push(x)[i] == y);
}

proof fn lemma_push_fresh(s: Seq<usize>, x: usize)
    requires
        all_below(s, x as int),
        no_repeats(s),
    ensures
        all_below(s.push(x), x + 1),
        no_repeats(s.push(x)),
        s.push(x).contains(x),
{
    assert(s.push(x)[s.len() as int] == x);
    assert forall|i: int, j: int| 0 <= i < j < s.push(x).len() implies #[trigger] s.push(x)[i]
        != #[trigger] s.push(x)[j] by {
        if j == s.len() {
            assert(s[i] < x);
        }
    }
}

proof fn lemma_add_coedge(
    d: Seq<RecordView>,
    reads: Seq<Reading>,
    b1: Body,
    ids: LiftIds,
    b2: Body,
    co: Coedge,
    e2: Edge,
    l2: Loop,
)
    requires
        nodes_from(d, reads, b1, ids),
        b1.coedges@.len() <= usize::MAX,
        co.provenance is Clean,
        names_kind(d, source_id(co.provenance), "coedge"@),
        co.edge < b1.edges@.len(),
        ids.edges[co.edge as int] == link(named(d, source_id(co.provenance)), 4),
        co.forward == forward_field(named(d, source_id(co.provenance)), 5),
        co.owner < b1.loops@.len(),
        e2.coedges@ == b1.edges@[co.edge as int].coedges@.push(b1.coedges@.len() as usize),
        e2.curve == b1.edges@[co.edge as int].curve && e2.start == b1.edges@[co.edge as int].start,
        e2.end == b1.edges@[co.edge as int].end && e2.provenance == b1.edges@[co.edge as int].provenance,
        e2.start_parameter == b1.edges@[co.edge as int].start_parameter,
        e2.end_parameter == b1.edges@[co.edge as int].end_parameter,
        l2.coedges@ == b1.loops@[co.owner as int].coedges@.push(b1.coedges@.len() as usize),
        l2.owner == b1.loops@[co.owner as int].owner,
        l2.provenance == b1.loops@[co.owner as int].provenance,
        b2.coedges@ == b1.coedges@.push(co),
        b2.edges@ == b1.edges@.update(co.edge as int, e2),
        b2.loops@ == b1.loops@.update(co.owner as int, l2),
        b2.vertices@ == b1.vertices@ && b2.curves@ == b1.curves@ && b2.surfaces@ == b1.surfaces@,
        b2.faces@ == b1.faces@ && b2.shells@ == b1.shells@ && b2.lumps@ == b1.lumps@,
        b2.roots@ == b1.roots@,
    ensures
        nodes_from(d, reads, b2, ids),
{
    let n = b1.coedges@.len() as int;
    let x = b1.coedges@.len() as usize;
    assert(edge_from(d, reads, b1, ids, co.edge as int));
    assert(loop_from(d, b1, co.owner as int));
    lemma_push_fresh(b1.edges@[co.edge as int].coedges@, x);
    lemma_push_fresh(b1.loops@[co.owner as int].coedges@, x);
    assert forall|k: int| 0 <= k < b2.vertices@.len() implies vertex_from(
        d,
        #[trigger] b2.vertices@[k],
        ids.vertices[k],
    ) by {
        assert(vertex_from(d, b1.vertices@[k], ids.vertices[k]));
    }
    assert forall|e: int| 0 <= e < b2.edges@.len() implies #[trigger] edge_from(d, reads, b2, ids, e) by {
        assert(edge_from(d, reads, b1, ids, e));
        if e == co.edge {
            let list = b2.edges@[e].coedges@;
            assert forall|j: int| 0 <= j < list.len() implies b2.coedges@[#[trigger] list[j] as int].edge
                == e by {
                if j < list.len() - 1 {
                    assert(list[j] == b1.edges@[e].coedges@[j]);
                }
            }
        } else {
            let list = b2.edges@[e].coedges@;
            assert forall|j: int| 0 <= j < list.len() implies b2.coedges@[#[trigger] list[j] as int].edge
                == e by {
                assert(list[j] == b1.edges@[e].coedges@[j]);
            }
        }
    }
    assert forall|c: int| 0 <= c < b2.coedges@.len() implies #[trigger] coedge_from(d, b2, ids, c) by {
        if c < n {
            assert(coedge_from(d, b1, ids, c));
            let o = b1.coedges@[c];
            if o.edge == co.edge {
                lemma_push_contains(b1.edges@[co.edge as int].coedges@, x, c as usize);
            }
            if o.owner == co.owner {
                lemma_push_contains(b1.loops@[co.owner as int].coedges@, x, c as usize);
            }
        }
    }
    assert forall|l: int| 0 <= l < b2.loops@.len() implies #[trigger] loop_from(d, b2, l) by {
        assert(loop_from(d, b1, l));
        let list = b2.loops@[l].coedges@;
        assert forall|j: int| 0 <= j < list.len() implies b2.coedges@[#[trigger] list[j] as int].owner
            == l by {
            if l != co.owner || j < list.len() - 1 {
                assert(list[j] == b1.loops@[l].coedges@[j]);
            }
        }
    }
    assert forall|f: int| 0 <= f < b2.faces@.len() implies #[trigger] face_from(d, b2, ids, f) by {
        assert(face_from(d, b1, ids, f));
        let list = b2.faces@[f].loops@;
        assert forall|j: int| 0 <= j < list.len() implies b2.loops@[#[trigger] list[j] as int].owner
            == f by {
            assert(b1.loops@[list[j] as int].owner == f);
        }
    }
    assert forall|s: int| 0 <= s < b2.shells@.len() implies #[trigger] shell_from(d, b2, s) by {
        assert(shell_from(d, b1, s));
    }
    assert forall|u: int| 0 <= u < b2.lumps@.len() implies #[trigger] lump_from(d, b2, u) by {
        assert(lump_from(d, b1, u));
    }
}

proof fn lemma_add_loop(
    d: Seq<RecordView>,
    reads: Seq<Reading>,
    b1: Body,
    ids: LiftIds,
    b2: Body,
    ring: Loop,
    f2: Face,
)
    requires
        nodes_from(d, reads, b1, ids),
        b1.loops@.len() <= usize::MAX,
        ring.provenance is Clean,
        names_kind(d, source_id(ring.provenance), "loop"@),
        ring.owner < b1.faces@.len(),
        ring.coedges@.len() == 0,
        f2.loops@ == b1.faces@[ring.owner as int].loops@.push(b1.loops@.len() as usize),
        f2.surface == b1.faces@[ring.owner as int].surface,
        f2.forward == b1.faces@[ring.owner as int].forward,
        f2.owner == b1.faces@[ring.owner as int].owner,
        f2.provenance == b1.faces@[ring.owner as int].provenance,
        b2.loops@ == b1.loops@.push(ring),
        b2.faces@ == b1.faces@.update(ring.owner as int, f2),
        b2.vertices@ == b1.vertices@ && b2.curves@ == b1.curves@ && b2.surfaces@ == b1.surfaces@,
        b2.edges@ == b1.edges@ && b2.coedges@ == b1.coedges@ && b2.shells@ == b1.shells@,
        b2.lumps@ == b1.lumps@ && b2.roots@ == b1.roots@,
    ensures
        nodes_from(d, reads, b2, ids),
{
    let x = b1.loops@.len() as usize;
    assert(face_from(d, b1, ids, ring.owner as int));
    lemma_push_fresh(b1.faces@[ring.owner as int].loops@, x);
    assert forall|k: int| 0 <= k < b2.vertices@.len() implies vertex_from(
        d,
        #[trigger] b2.vertices@[k],
        ids.vertices[k],
    ) by {
        assert(vertex_from(d, b1.vertices@[k], ids.vertices[k]));
    }
    assert forall|e: int| 0 <= e < b2.edges@.len() implies #[trigger] edge_from(d, reads, b2, ids, e) by {
        assert(edge_from(d, reads, b1, ids, e));
    }
    assert forall|c: int| 0 <= c < b2.coedges@.len() implies #[trigger] coedge_from(d, b2, ids, c) by {
        assert(coedge_from(d, b1, ids, c));
    }
    assert forall|l: int| 0 <= l < b2.loops@.len() implies #[trigger] loop_from(d, b2, l) by {
        if l < x {
            assert(loop_from(d, b1, l));
            if b1.loops@[l].owner == ring.owner {
                lemma_push_contains(b1.faces@[ring.owner as int].loops@, x, l as usize);
            }
        }
    }
    assert forall|f: int| 0 <= f < b2.faces@.len() implies #[trigger] face_from(d, b2, ids, f) by {
        assert(face_from(d, b1, ids, f));
        let list = b2.faces@[f].loops@;
        assert forall|j: int| 0 <= j < list.len() implies b2.loops@[#[trigger] list[j] as int].owner
            == f by {
            if f != ring.owner || j < list.len() - 1 {
                assert(list[j] == b1.faces@[f].loops@[j]);
            }
        }
    }
    assert forall|s: int| 0 <= s < b2.shells@.len() implies #[trigger] shell_from(d, b2, s) by {
        assert(shell_from(d, b1, s));
    }
    assert forall|u: int| 0 <= u < b2.lumps@.len() implies #[trigger] lump_from(d, b2, u) by {
        assert(lump_from(d, b1, u));
    }
}

proof fn lemma_add_face(
    d: Seq<RecordView>,
    reads: Seq<Reading>,
    b1: Body,
    ids: LiftIds,
    b2: Body,
    face: Face,
    s2: Shell,
)
    requires
        nodes_from(d, reads, b1, ids),
        b1.faces@.len() <= usize::MAX,
        face.provenance is Clean,
        names_kind(d, source_id(face.provenance), "face"@),
        face.surface < b1.surfaces@.len(),
        ids.surfaces[face.surface as int] == link(named(d, source_id(face.provenance)), 5),
        face.forward == forward_field(named(d, source_id(face.provenance)), 6),
        face.owner < b1.shells@.len(),
        face.loops@.len() == 0,
        s2.faces@ == b1.shells@[face.owner as int].faces@.push(b1.faces@.len() as usize),
        s2.owner == b1.shells@[face.owner as int].owner,
        s2.provenance == b1.shells@[face.owner as int].provenance,
        b2.faces@ == b1.faces@.push(face),
        b2.shells@ == b1.shells@.update(face.owner as int, s2),
        b2.vertices@ == b1.vertices@ && b2.curves@ == b1.curves@ && b2.surfaces@ == b1.surfaces@,
        b2.edges@ == b1.edges@ && b2.coedges@ == b1.coedges@ && b2.loops@ == b1.loops@,
        b2.lumps@ == b1.lumps@ && b2.roots@ == b1.roots@,
    ensures
        nodes_from(d, reads, b2, ids),
{
    let x = b1.faces@.len() as usize;
    assert(shell_from(d, b1, face.owner as int));
    lemma_push_fresh(b1.shells@[face.owner as int].faces@, x);
    assert forall|k: int| 0 <= k < b2.vertices@.len() implies vertex_from(
        d,
        #[trigger] b2.vertices@[k],
        ids.vertices[k],
    ) by {
        assert(vertex_from(d, b1.vertices@[k], ids.vertices[k]));
    }
    assert forall|e: int| 0 <= e < b2.edges@.len() implies #[trigger] edge_from(d, reads, b2, ids, e) by {
        assert(edge_from(d, reads, b1, ids, e));
    }
    assert forall|c: int| 0 <= c < b2.coedges@.len() implies #[trigger] coedge_from(d, b2, ids, c) by {
        assert(coedge_from(d, b1, ids, c));
    }
    assert forall|l: int| 0 <= l < b2.loops@.len() implies #[trigger] loop_from(d, b2, l) by {
        assert(loop_from(d, b1, l));
    }
    assert forall|f: int| 0 <= f < b2.faces@.len() implies #[trigger] face_from(d, b2, ids, f) by {
        if f < x {
            assert(face_from(d, b1, ids, f));
            if b1.faces@[f].owner == face.owner {
                lemma_push_contains(b1.shells@[face.owner as int].faces@, x, f as usize);
            }
        }
    }
    assert forall|s: int| 0 <= s < b2.shells@.len() implies #[trigger] shell_from(d, b2, s) by {
        assert(shell_from(d, b1, s));
        let list = b2.shells@[s].faces@;
        assert forall|j: int| 0 <= j < list.len() implies b2.faces@[#[trigger] list[j] as int].owner
            == s by {
            if s != face.owner || j < list.len() - 1 {
                assert(list[j] == b1.shells@[s].faces@[j]);
            }
        }
    }
    assert forall|u: int| 0 <= u < b2.lumps@.len() implies #[trigger] lump_from(d, b2, u) by {
        assert(lump_from(d, b1, u));
    }
}

proof fn lemma_add_shell(
    d: Seq<RecordView>,
    reads: Seq<Reading>,
    b1: Body,
    ids: LiftIds,
    b2: Body,
    shell: Shell,
    u2: Lump,
)
    requires
        nodes_from(d, reads, b1, ids),
        b1.shells@.len() <= usize::MAX,
        shell.provenance is Clean,
        names_kind(d, source_id(shell.provenance), "shell"@),
        shell.owner < b1.lumps@.len(),
        shell.faces@.len() == 0,
        u2.shells@ == b1.lumps@[shell.owner as int].shells@.push(b1.shells@.len() as usize),
        u2.provenance == b1.lumps@[shell.owner as int].provenance,
        b2.shells@ == b1.shells@.push(shell),
        b2.lumps@ == b1.lumps@.update(shell.owner as int, u2),
        b2.vertices@ == b1.vertices@ && b2.curves@ == b1.curves@ && b2.surfaces@ == b1.surfaces@,
        b2.edges@ == b1.edges@ && b2.coedges@ == b1.coedges@ && b2.loops@ == b1.loops@,
        b2.faces@ == b1.faces@ && b2.roots@ == b1.roots@,
    ensures
        nodes_from(d, reads, b2, ids),
{
    let x = b1.shells@.len() as usize;
    assert(lump_from(d, b1, shell.owner as int));
    lemma_push_fresh(b1.lumps@[shell.owner as int].shells@, x);
    assert forall|k: int| 0 <= k < b2.vertices@.len() implies vertex_from(
        d,
        #[trigger] b2.vertices@[k],
        ids.vertices[k],
    ) by {
        assert(vertex_from(d, b1.vertices@[k], ids.vertices[k]));
    }
    assert forall|e: int| 0 <= e < b2.edges@.len() implies #[trigger] edge_from(d, reads, b2, ids, e) by {
        assert(edge_from(d, reads, b1, ids, e));
    }
    assert forall|c: int| 0 <= c < b2.coedges@.len() implies #[trigger] coedge_from(d, b2, ids, c) by {
        assert(coedge_from(d, b1, ids, c));
    }
    assert forall|l: int| 0 <= l < b2.loops@.len() implies #[trigger] loop_from(d, b2, l) by {
        assert(loop_from(d, b1, l));
    }
    assert forall|f: int| 0 <= f < b2.faces@.len() implies #[trigger] face_from(d, b2, ids, f) by {
        assert(face_from(d, b1, ids, f));
    }
    assert forall|s: int| 0 <= s < b2.shells@.len() implies #[trigger] shell_from(d, b2, s) by {
        if s < x {
            assert(shell_from(d, b1, s));
            if b1.shells@[s].owner == shell.owner {
                lemma_push_contains(b1.lumps@[shell.owner as int].shells@, x, s as usize);
            }
        }
    }
    assert forall|u: int| 0 <= u < b2.lumps@.len() implies #[trigger] lump_from(d, b2, u) by {
        assert(lump_from(d, b1, u));
        let list = b2.lumps@[u].shells@;
        assert forall|j: int| 0 <= j < list.len() implies b2.shells@[#[trigger] list[j] as int].owner
            == u by {
            if u != shell.owner || j < list.len() - 1 {
                assert(list[j] == b1.lumps@[u].shells@[j]);
            }
        }
    }
}

proof fn lemma_add_lump(
    d: Seq<RecordView>,
    reads: Seq<Reading>,
    b1: Body,
    ids: LiftIds,
    b2: Body,
    lump: Lump,
)
    requires
        nodes_from(d, reads, b1, ids),
        b1.lumps@.len() <= usize::MAX,
        lump.provenance is Clean,
        names_kind(d, source_id(lump.provenance), "lump"@),
        lump.shells@.len() == 0,
        b2.lumps@ == b1.lumps@.push(lump),
        b2.roots@ == b1.roots@.push(b1.lumps@.len() as usize),
        b2.vertices@ == b1.vertices@ && b2.curves@ == b1.curves@ && b2.surfaces@ == b1.surfaces@,
        b2.edges@ == b1.edges@ && b2.coedges@ == b1.coedges@ && b2.loops@ == b1.loops@,
        b2.faces@ == b1.faces@ && b2.shells@ == b1.shells@,
    ensures
        nodes_from(d, reads, b2, ids),
{
    let x = b1.lumps@.len() as usize;
    lemma_push_fresh(b1.roots@, x);
    assert forall|k: int| 0 <= k < b2.vertices@.len() implies vertex_from(
        d,
        #[trigger] b2.vertices@[k],
        ids.vertices[k],
    ) by {
        assert(vertex_from(d, b1.vertices@[k], ids.vertices[k]));
    }
    assert forall|e: int| 0 <= e < b2.edges@.len() implies #[trigger] edge_from(d, reads, b2, ids, e) by {
        assert(edge_from(d, reads, b1, ids, e));
    }
    assert forall|c: int| 0 <= c < b2.coedges@.len() implies #[trigger] coedge_from(d, b2, ids, c) by {
        assert(coedge_from(d, b1, ids, c));
    }
    assert forall|l: int| 0 <= l < b2.loops@.len() implies #[trigger] loop_from(d, b2, l) by {
        assert(loop_from(d, b1, l));
    }
    assert forall|f: int| 0 <= f < b2.faces@.len() implies #[trigger] face_from(d, b2, ids, f) by {
        assert(face_from(d, b1, ids, f));
    }
    assert forall|s: int| 0 <= s < b2.shells@.len() implies #[trigger] shell_from(d, b2, s) by {
        assert(shell_from(d, b1, s));
    }
    assert forall|u: int| 0 <= u < b2.lumps@.len() implies #[trigger] lump_from(d, b2, u) by {
        if u < x {
            assert(lump_from(d, b1, u));
            lemma_push_contains(b1.roots@, x, u as usize);
        }
    }
}

/// Nodes are what their records say whatever vectors hold them.
proof fn lemma_same_nodes(
    d: Seq<RecordView>,
    reads: Seq<Reading>,
    b1: Body,
    ids1: LiftIds,
    b2: Body,
    ids2: LiftIds,
)
    requires
        nodes_from(d, reads, b1, ids1),
        b2.vertices@ == b1.vertices@ && b2.curves@ == b1.curves@ && b2.surfaces@ == b1.surfaces@,
        b2.edges@ == b1.edges@ && b2.coedges@ == b1.coedges@ && b2.loops@ == b1.loops@,
        b2.faces@ == b1.faces@ && b2.shells@ == b1.shells@ && b2.lumps@ == b1.lumps@,
        b2.roots@ == b1.roots@,
        ids2 == ids1,
    ensures
        nodes_from(d, reads, b2, ids2),
{
    assert forall|k: int| 0 <= k < b2.vertices@.len() implies vertex_from(
        d,
        #[trigger] b2.vertices@[k],
        ids2.vertices[k],
    ) by {
        assert(vertex_from(d, b1.vertices@[k], ids1.vertices[k]));
    }
    assert forall|e: int| 0 <= e < b2.edges@.len() implies #[trigger] edge_from(d, reads, b2, ids2, e) by {
        assert(edge_from(d, reads, b1, ids1, e));
    }
    assert forall|c: int| 0 <= c < b2.coedges@.len() implies #[trigger] coedge_from(d, b2, ids2, c) by {
        assert(coedge_from(d, b1, ids1, c));
    }
    assert forall|l: int| 0 <= l < b2.loops@.len() implies #[trigger] loop_from(d, b2, l) by {
        assert(loop_from(d, b1, l));
    }
    assert forall|f: int| 0 <= f < b2.faces@.len() implies #[trigger] face_from(d, b2, ids2, f) by {
        assert(face_from(d, b1, ids1, f));
    }
    assert forall|s: int| 0 <= s < b2.shells@.len() implies #[trigger] shell_from(d, b2, s) by {
        assert(shell_from(d, b1, s));
    }
    assert forall|u: int| 0 <= u < b2.lumps@.len() implies #[trigger] lump_from(d, b2, u) by {
        assert(lump_from(d, b1, u));
    }
}

// ---------------------------------------------------------------------------
// Reading records, executably.

fn pointer_at(record: &SatRecord, i: usize) -> (p: i32)
    ensures
        p == pointer_field(record@, i as int),
{
    if i < record.tokens.len() {
        match &record.tokens[i] {
            SatToken::Pointer(p) => *p,
            _ => -1,
        }
    } else {
        -1
    }
}

fn float_at(record: &SatRecord, i: usize) -> (f: u64)
    ensures
        f == float_field(record@, i as int),
{
    if i < record.tokens.len() {
        match &record.tokens[i] {
            SatToken::Float(f) => *f,
            _ => 0,
        }
    } else {
        0
    }
}

fn is_forward(record: &SatRecord, i: usize) -> (r: bool)
    ensures
        r == forward_field(record@, i as int),
{
    if i < record.tokens.len() {
        match &record.tokens[i] {
            SatToken::Ident(s) => same_text(s.as_str(), "forward"),
            _ => false,
        }
    } else {
        false
    }
}

fn kind_is(record: &SatRecord, kind: &str) -> (r: bool)
    ensures
        r == (record@.kind == kind@),
{
    same_text(record.entity_type.as_str(), kind)
}

/// The order of two floats given by their bits: whether the first is less
/// than or equal to the second.
pub fn float_bits_le(a: u64, b: u64) -> (r: bool)
    ensures
        r == float_le(a, b),
{
    let ma = a % 0x8000_0000_0000_0000u64;
    let mb = b % 0x8000_0000_0000_0000u64;
    if ma > 0x7ff0_0000_0000_0000u64 || mb > 0x7ff0_0000_0000_0000u64 {
        return false;
    }
    let na = a >= 0x8000_0000_0000_0000u64;
    let nb = b >= 0x8000_0000_0000_0000u64;
    if !na && !nb {
        ma <= mb
    } else if na && nb {
        mb <= ma
    } else if na {
        true
    } else {
        ma == 0 && mb == 0
    }
}

/// The record a pointer names, by array position.
fn lookup(document: &SatDocument, pointer: i32) -> (r: Option<usize>)
    ensures
        r matches Some(s) ==> resolve_slot(document@, pointer) == Some(s as int) && s
            < document@.len() && document@[s as int].index == pointer,
        r is None ==> resolve_slot(document@, pointer) is None,
{
    let r = document.resolve(pointer);
    proof {
        super::document::lemma_first_slot(document@, pointer);
    }
    r
}

fn reads_surface_at(reads: &Vec<Reading>, slot: usize) -> (r: bool)
    ensures
        r == (slot < reads@.len() && reads@[slot as int].surface),
{
    slot < reads.len() && reads[slot].surface
}

/// Whether the kernel reads the record at a slot as a curve.
fn reads_curve_at(reads: &Vec<Reading>, slot: usize) -> (r: bool)
    ensures
        r == (slot < reads@.len() && reads@[slot as int].curve),
{
    slot < reads.len() && reads[slot].curve
}

/// The record form of a geometry record: its kind and the tokens after its
/// attribute pointer.
fn form_of(record: &SatRecord) -> (g: GeometryRecord)
    ensures
        holds_form(Some(g), record@),
{
    let mut tokens: Vec<SatToken> = Vec::new();
    let mut i: usize = 1;
    while i < record.tokens.len()
        invariant
            1 <= i,
            i <= record.tokens@.len() || record.tokens@.len() == 0,
            record.tokens@.len() > 0 ==> tokens_view(tokens@) =~= tokens_view(
                record.tokens@,
            ).subrange(1, i as int),
            record.tokens@.len() == 0 ==> tokens@.len() == 0,
        decreases record.tokens@.len() - i,
    {
        let t = record.tokens[i].duplicate();
        let ghost before = tokens@;
        tokens.push(t);
        proof {
            assert(tokens@ =~= before.push(t));
            assert(tokens_view(tokens@) =~= tokens_view(before).push(t@));
        }
        i = i + 1;
    }
    let g = GeometryRecord { kind: record.entity_type.clone(), tokens };
    assert(tokens_view(g.tokens@) =~= rest_tokens(record@));
    g
}

// ---------------------------------------------------------------------------
// The walk.

/// The record ids of the vertices, edges, curves and surfaces made so far,
/// so a record named again is found rather than made twice.
struct Seen {
    vertices: Vec<i32>,
    edges: Vec<i32>,
    curves: Vec<i32>,
    surfaces: Vec<i32>,
}

spec fn ids_of(s: Seen) -> LiftIds {
    LiftIds { vertices: s.vertices@, edges: s.edges@, curves: s.curves@, surfaces: s.surfaces@ }
}

fn find(ids: &Vec<i32>, id: i32) -> (r: Option<usize>)
    ensures
        match r {
            Some(k) => k < ids@.len() && ids@[k as int] == id,
            None => !ids@.contains(id),
        },
{
    let mut k: usize = 0;
    while k < ids.len()
        invariant
            k <= ids@.len(),
            forall|j: int| 0 <= j < k ==> ids@[j] != id,
        decreases ids@.len() - k,
    {
        if ids[k] == id {
            return Some(k);
        }
        k = k + 1;
    }
    None
}

fn note(list: &mut Vec<usize>, record: &SatRecord)
    ensures
        record@.index >= 0 ==> final(list)@ == old(list)@.push(record@.index as usize),
        record@.index < 0 ==> final(list)@ == old(list)@,
        grows(old(list)@, final(list)@),
{
    if record.index >= 0 {
        list.push(record.index as usize);
    }
}

/// A record of kind `holder` names what its token `field` points at.
proof fn lemma_named_from(d: Seq<RecordView>, j: int, holder: Seq<char>, field: int)
    requires
        0 <= j < d.len(),
        d[j].kind == holder,
    ensures
        named_as(d, link(d[j], field), holder, field),
{
}

/// A node record of kind `holder` names what its token `field` points at.
proof fn lemma_named_by_node(d: Seq<RecordView>, id: int, holder: Seq<char>, field: int)
    requires
        names_kind(d, id, holder),
    ensures
        named_as(d, link(named(d, id), field), holder, field),
{
    super::document::lemma_first_slot(d, id as i32);
    lemma_named_from(d, resolve_slot(d, id as i32)->Some_0, holder, field);
}

/// A fault noted keeps every id listed a fault.
proof fn lemma_note_fault(d: Seq<RecordView>, reads: Seq<Reading>, list: Seq<usize>, id: int)
    requires
        faults_all(d, reads, list),
        fault(d, reads, id),
        0 <= id <= usize::MAX,
    ensures
        faults_all(d, reads, list.push(id as usize)),
{
    assert forall|j: int| 0 <= j < list.push(id as usize).len() implies fault(
        d,
        reads,
        #[trigger] list.push(id as usize)[j] as int,
    ) by {
        if j < list.len() {
            assert(list.push(id as usize)[j] == list[j]);
        }
    }
}

/// The vertex a pointer names, made the first time it is named.
fn vertex_of(
    document: &SatDocument,
    reads: &Vec<Reading>,
    vertices: &mut Vec<Vertex>,
    seen: &mut Vec<i32>,
    broken: &mut Vec<usize>,
    pointer: i32,
) -> (r: Option<usize>)
    requires
        old(vertices)@.len() == old(seen)@.len(),
        distinct_ids(old(seen)@),
        forall|k: int|
            0 <= k < old(vertices)@.len() ==> vertex_from(
                document@,
                #[trigger] old(vertices)@[k],
                old(seen)@[k],
            ),
        faults_all(document@, reads@, old(broken)@),
        named_as(document@, pointer as int, "edge"@, 1) || named_as(document@, pointer as int, "edge"@, 3),
    ensures
        faults_all(document@, reads@, final(broken)@),
        grows(old(broken)@, final(broken)@),
        vertex_reported(document@, pointer as int, final(broken)@),
        match r {
            Some(k) => k < final(vertices)@.len() && final(seen)@[k as int] == pointer
                && vertex_point(document@, pointer as int) is Some && ((final(vertices)@ == old(
                vertices,
            )@ && final(seen)@ == old(seen)@) || (k == old(vertices)@.len() && final(seen)@ == old(
                seen,
            )@.push(pointer) && !old(seen)@.contains(pointer) && final(vertices)@ == old(
                vertices,
            )@.push(final(vertices)@[k as int]) && vertex_from(
                document@,
                final(vertices)@[k as int],
                pointer,
            ))),
            None => vertex_point(document@, pointer as int) is None && final(vertices)@ == old(
                vertices,
            )@ && final(seen)@ == old(seen)@,
        },
{
    let slot = match lookup(document, pointer) {
        Some(slot) => slot,
        None => return None,
    };
    match find(seen, pointer) {
        Some(k) => {
            assert(vertex_from(document@, vertices@[k as int], seen@[k as int]));
            return Some(k);
        },
        None => {},
    }
    let record = &document.records[slot];
    assert(record@ == document@[slot as int]);
    if !kind_is(record, "vertex") {
        proof {
            lemma_note_fault(document@, reads@, broken@, pointer as int);
        }
        note(broken, record);
        assert(broken@[broken@.len() - 1] == pointer as usize);
        return None;
    }
    let point_slot = match lookup(document, pointer_at(record, 2)) {
        Some(s) => s,
        None => return None,
    };
    let point_record = &document.records[point_slot];
    assert(point_record@ == document@[point_slot as int]);
    let ghost point_id = link(record@, 2);
    proof {
        lemma_named_from(document@, slot as int, "vertex"@, 2);
    }
    if !kind_is(point_record, "point") || point_record.tokens.len() < 2 {
        proof {
            lemma_note_fault(document@, reads@, broken@, point_id);
        }
        note(broken, point_record);
        assert(broken@[broken@.len() - 1] == point_id as usize);
        return None;
    }
    let (x, y, z) = match &point_record.tokens[1] {
        SatToken::Position(x, y, z) => (*x, *y, *z),
        _ => {
            proof {
                lemma_note_fault(document@, reads@, broken@, point_id);
            }
            note(broken, point_record);
            assert(broken@[broken@.len() - 1] == point_id as usize);
            return None;
        },
    };
    let k = vertices.len();
    vertices.push(Vertex { point: [x, y, z], provenance: Provenance::Clean(pointer as u32) });
    seen.push(pointer);
    Some(k)
}

/// The curve or surface a pointer names, made the first time it is named,
/// when the kernel can read it.
fn geometry_of(
    document: &SatDocument,
    reads: &Vec<Reading>,
    arena: &mut Vec<Option<GeometryRecord>>,
    seen: &mut Vec<i32>,
    lost: &mut Vec<usize>,
    pointer: i32,
) -> (r: Option<usize>)
    requires
        old(arena)@.len() == old(seen)@.len(),
        distinct_ids(old(seen)@),
        forall|k: int|
            0 <= k < old(arena)@.len() ==> geometry_from(
                document@,
                reads@,
                #[trigger] old(arena)@[k],
                old(seen)@[k],
            ),
        unread_surfaces_all(document@, reads@, old(lost)@),
    ensures
        unread_surfaces_all(document@, reads@, final(lost)@),
        grows(old(lost)@, final(lost)@),
        unread_surface(document@, reads@, pointer as int) ==> final(lost)@.contains(pointer as usize),
        match r {
            Some(k) => k < final(arena)@.len() && final(seen)@[k as int] == pointer && surface_lifts(
                document@,
                reads@,
                pointer as int,
            ) && ((final(arena)@ == old(arena)@ && final(seen)@ == old(seen)@) || (k == old(
                arena,
            )@.len() && final(seen)@ == old(seen)@.push(pointer) && !old(seen)@.contains(pointer)
                && final(arena)@ == old(arena)@.push(final(arena)@[k as int]) && geometry_from(
                document@,
                reads@,
                final(arena)@[k as int],
                pointer,
            ))),
            None => !surface_lifts(document@, reads@, pointer as int) && final(arena)@ == old(
                arena,
            )@ && final(seen)@ == old(seen)@,
        },
{
    let slot = match lookup(document, pointer) {
        Some(slot) => slot,
        None => return None,
    };
    match find(seen, pointer) {
        Some(k) => {
            assert(geometry_from(document@, reads@, arena@[k as int], seen@[k as int]));
            return Some(k);
        },
        None => {},
    }
    let record = &document.records[slot];
    assert(record@ == document@[slot as int]);
    if !reads_surface_at(reads, slot) {
        note(lost, record);
        assert(lost@[lost@.len() - 1] == pointer as usize);
        return None;
    }
    let k = arena.len();
    arena.push(Some(form_of(record)));
    seen.push(pointer);
    Some(k)
}

/// The curve a pointer names, made the first time it is named, whether or
/// not the kernel can read it; one it cannot read is put in the loss.
fn curve_of(
    document: &SatDocument,
    reads: &Vec<Reading>,
    arena: &mut Vec<Option<GeometryRecord>>,
    seen: &mut Vec<i32>,
    lost: &mut Vec<usize>,
    pointer: i32,
) -> (r: Option<usize>)
    requires
        old(arena)@.len() == old(seen)@.len(),
        distinct_ids(old(seen)@),
        forall|k: int|
            0 <= k < old(arena)@.len() ==> curve_from(document@, #[trigger] old(arena)@[k], old(seen)@[k]),
        unread_curves_all(document@, reads@, old(lost)@),
        curves_noted(document@, reads@, old(seen)@, old(lost)@),
    ensures
        unread_curves_all(document@, reads@, final(lost)@),
        curves_noted(document@, reads@, final(seen)@, final(lost)@),
        grows(old(lost)@, final(lost)@),
        unread_curve(document@, reads@, pointer as int) ==> final(lost)@.contains(pointer as usize),
        match r {
            Some(k) => k < final(arena)@.len() && final(seen)@[k as int] == pointer && in_document(
                document@,
                pointer as int,
            ) && ((final(arena)@ == old(arena)@ && final(seen)@ == old(seen)@) || (k == old(
                arena,
            )@.len() && final(seen)@ == old(seen)@.push(pointer) && !old(seen)@.contains(pointer)
                && final(arena)@ == old(arena)@.push(final(arena)@[k as int]) && curve_from(
                document@,
                final(arena)@[k as int],
                pointer,
            ))),
            None => !in_document(document@, pointer as int) && final(arena)@ == old(arena)@
                && final(seen)@ == old(seen)@,
        },
{
    let slot = match lookup(document, pointer) {
        Some(slot) => slot,
        None => return None,
    };
    match find(seen, pointer) {
        Some(k) => {
            assert(curve_from(document@, arena@[k as int], seen@[k as int]));
            return Some(k);
        },
        None => {},
    }
    let record = &document.records[slot];
    assert(record@ == document@[slot as int]);
    let ghost lost0 = lost@;
    let ghost seen0 = seen@;
    if !reads_curve_at(reads, slot) {
        note(lost, record);
        assert(lost@[lost@.len() - 1] == pointer as usize);
    }
    let k = arena.len();
    arena.push(Some(form_of(record)));
    seen.push(pointer);
    assert forall|j: int|
        0 <= j < seen@.len() && unread_curve(document@, reads@, seen@[j] as int) implies lost@.contains(
        #[trigger] seen@[j] as usize,
    ) by {
        if j < seen0.len() {
            assert(lost0.contains(seen0[j] as usize));
            let t = choose|t: int| 0 <= t < lost0.len() && lost0[t] == seen0[j] as usize;
            assert(lost@[t] == lost0[t]);
        }
    }
    Some(k)
}

/// Arenas and ids that an edge lookup leaves as they were.
spec fn edge_frame(b1: Body, s1: Seen, b2: Body, s2: Seen) -> bool {
    &&& b2.coedges@ == b1.coedges@ && b2.loops@ == b1.loops@ && b2.faces@ == b1.faces@
    &&& b2.shells@ == b1.shells@ && b2.lumps@ == b1.lumps@ && b2.roots@ == b1.roots@
    &&& b2.surfaces@ == b1.surfaces@ && s2.surfaces@ == s1.surfaces@
    &&& b2.provenance == b1.provenance
    &&& b1.edges@.len() <= b2.edges@.len()
    &&& forall|i: int| 0 <= i < b1.edges@.len() ==> #[trigger] b2.edges@[i] == b1.edges@[i]
}

/// The edge a pointer names, made the first time it is named, when its
/// curve record is there and both its vertices lift.
fn edge_of(
    document: &SatDocument,
    reads: &Vec<Reading>,
    body: &mut Body,
    seen: &mut Seen,
    loss: &mut Loss,
    pointer: i32,
) -> (r: Option<usize>)
    requires
        nodes_from(document@, reads@, *old(body), ids_of(*old(seen))),
        loss_from(document@, reads@, *old(loss)),
        curves_noted(document@, reads@, old(seen).curves@, old(loss).curves@),
        named_as(document@, pointer as int, "coedge"@, 4),
        arenas_reached(document@, *old(body), ids_of(*old(seen))),
    ensures
        arenas_reached_but(
            document@,
            *final(body),
            ids_of(*final(seen)),
            old(body).edges@.len() as int,
        ),
        final(body).edges@.len() <= old(body).edges@.len() + 1,
        final(body).edges@.len() > old(body).edges@.len() ==> (r matches Some(e) && e == old(body).edges@.len()),
        r is None ==> final(body).edges@.len() == old(body).edges@.len(),
        nodes_from(document@, reads@, *final(body), ids_of(*final(seen))),
        loss_from(document@, reads@, *final(loss)),
        curves_noted(document@, reads@, final(seen).curves@, final(loss).curves@),
        edge_frame(*old(body), *old(seen), *final(body), *final(seen)),
        r matches Some(e) ==> e < final(body).edges@.len() && final(seen).edges@[e as int] == pointer,
        r is Some <==> edge_lifts(document@, reads@, pointer as int),
        grows(old(loss).curves@, final(loss).curves@),
        grows(old(loss).broken@, final(loss).broken@),
        edge_reported(document@, pointer as int, final(loss).broken@),
        final(loss).surfaces@ == old(loss).surfaces@,
        names_kind(document@, pointer as int, "edge"@) && unread_curve(
            document@,
            reads@,
            link(named(document@, pointer as int), 6),
        ) ==> final(loss).curves@.contains(link(named(document@, pointer as int), 6) as usize),
{
    let ghost d = document@;
    let ghost rd = reads@;
    let ghost broken0 = loss.broken@;
    let slot = match lookup(document, pointer) {
        Some(slot) => slot,
        None => return None,
    };
    match find(&seen.edges, pointer) {
        Some(k) => {
            assert(edge_from(d, rd, *body, ids_of(*seen), k as int));
            return Some(k);
        },
        None => {},
    }
    let record = &document.records[slot];
    assert(record@ == d[slot as int]);
    if !kind_is(record, "edge") {
        proof {
            lemma_note_fault(d, rd, loss.broken@, pointer as int);
        }
        note(&mut loss.broken, record);
        assert(loss.broken@[loss.broken@.len() - 1] == pointer as usize);
        return None;
    }
    let ghost b0 = *body;
    let ghost s0 = *seen;
    let curve = match curve_of(
        document,
        reads,
        &mut body.curves,
        &mut seen.curves,
        &mut loss.curves,
        pointer_at(record, 6),
    ) {
        Some(c) => c,
        None => {
            proof {
                lemma_same_nodes(d, rd, b0, ids_of(s0), *body, ids_of(*seen));
                lemma_arenas_kept(d, b0, ids_of(s0), -1, *body, ids_of(*seen), b0.edges@.len() as int);
            }
            return None;
        },
    };
    proof {
        if body.curves@ != b0.curves@ {
            lemma_add_curve(
                d,
                rd,
                b0,
                ids_of(s0),
                *body,
                ids_of(*seen),
                body.curves@[curve as int],
                pointer_field(record@, 6),
            );
        } else {
            lemma_same_nodes(d, rd, b0, ids_of(s0), *body, ids_of(*seen));
        }
    }
    let ghost b1 = *body;
    let ghost s1 = *seen;
    proof {
        lemma_named_from(d, slot as int, "edge"@, 1);
        lemma_named_from(d, slot as int, "edge"@, 3);
    }
    let start = match vertex_of(
        document,
        reads,
        &mut body.vertices,
        &mut seen.vertices,
        &mut loss.broken,
        pointer_at(record, 1),
    ) {
        Some(v) => v,
        None => {
            proof {
                lemma_same_nodes(d, rd, b1, ids_of(s1), *body, ids_of(*seen));
                lemma_left_by(d, slot as int);
                lemma_arenas_kept(d, b0, ids_of(s0), -1, *body, ids_of(*seen), b0.edges@.len() as int);
            }
            return None;
        },
    };
    proof {
        if body.vertices@ != b1.vertices@ {
            lemma_add_vertex(
                d,
                rd,
                b1,
                ids_of(s1),
                *body,
                ids_of(*seen),
                body.vertices@[start as int],
                pointer_field(record@, 1),
            );
        } else {
            lemma_same_nodes(d, rd, b1, ids_of(s1), *body, ids_of(*seen));
        }
    }
    let ghost b2 = *body;
    let ghost s2 = *seen;
    let ghost broken1 = loss.broken@;
    let end = match vertex_of(
        document,
        reads,
        &mut body.vertices,
        &mut seen.vertices,
        &mut loss.broken,
        pointer_at(record, 3),
    ) {
        Some(v) => v,
        None => {
            proof {
                lemma_grows_trans(broken0, broken1, loss.broken@);
                lemma_same_nodes(d, rd, b2, ids_of(s2), *body, ids_of(*seen));
                lemma_left_by(d, slot as int);
                lemma_arenas_kept(d, b0, ids_of(s0), -1, *body, ids_of(*seen), b0.edges@.len() as int);
            }
            return None;
        },
    };
    proof {
        if body.vertices@ != b2.vertices@ {
            lemma_add_vertex(
                d,
                rd,
                b2,
                ids_of(s2),
                *body,
                ids_of(*seen),
                body.vertices@[end as int],
                pointer_field(record@, 3),
            );
        } else {
            lemma_same_nodes(d, rd, b2, ids_of(s2), *body, ids_of(*seen));
        }
    }
    proof {
        lemma_grows_trans(broken0, broken1, loss.broken@);
    }
    let placed = if slot < reads.len() {
        reads[slot].placed
    } else {
        None
    };
    let (low, high) = match placed {
        Some(pair) => pair,
        None => (float_at(record, 2), float_at(record, 4)),
    };
    let edge = if float_bits_le(low, high) {
        Edge {
            curve,
            start_parameter: low,
            end_parameter: high,
            start,
            end,
            coedges: Vec::new(),
            provenance: Provenance::Clean(pointer as u32),
        }
    } else {
        Edge {
            curve,
            start_parameter: high,
            end_parameter: low,
            start: end,
            end: start,
            coedges: Vec::new(),
            provenance: Provenance::Clean(pointer as u32),
        }
    };
    let ghost b3 = *body;
    let ghost s3 = *seen;
    let e = body.edges.len();
    body.edges.push(edge);
    seen.edges.push(pointer);
    proof {
        lemma_add_edge(d, rd, b3, ids_of(s3), *body, ids_of(*seen), edge, pointer);
        assert(body.edges@[e as int] == edge);
        assert forall|k: int| b0.vertices@.len() <= k < body.vertices@.len() implies #[trigger] ends_an_edge(
            *body,
            k,
        ) || left_by_an_edge(d, ids_of(*seen).vertices[k] as int) by {
            assert(k == start || k == end);
            assert(body.edges@[e as int].start == k || body.edges@[e as int].end == k);
        }
        assert forall|k: int| b0.curves@.len() <= k < body.curves@.len() implies #[trigger] carries_an_edge(
            *body,
            k,
        ) || curve_left_by_an_edge(d, ids_of(*seen).curves[k] as int) by {
            assert(k == curve);
            assert(body.edges@[e as int].curve == k);
        }
        lemma_arenas_kept(d, b0, ids_of(s0), -1, *body, ids_of(*seen), e as int);
    }
    Some(e)
}

/// What walking one loop's ring leaves as it was.
spec fn ring_frame(b1: Body, b2: Body, ring: int) -> bool {
    &&& b2.faces@ == b1.faces@ && b2.shells@ == b1.shells@ && b2.lumps@ == b1.lumps@
    &&& b2.roots@ == b1.roots@ && b2.provenance == b1.provenance
    &&& b2.loops@.len() == b1.loops@.len()
    &&& forall|i: int| 0 <= i < b1.loops@.len() && i != ring ==> #[trigger] b2.loops@[i] == b1.loops@[i]
    &&& b2.loops@[ring].owner == b1.loops@[ring].owner
    &&& b2.loops@[ring].provenance == b1.loops@[ring].provenance
}

/// Walks the ring of coedges of loop `ring`, starting at `first`, making a
/// coedge for each one whose edge lifts.
///
/// The walk stops when the next pointer comes back to `first` or is null,
/// at a record that is missing or not a coedge, once the ring has made more
/// coedges than the document has records, or after `n * (n + 2)` steps for a
/// document of `n` records.
fn lift_ring(
    document: &SatDocument,
    reads: &Vec<Reading>,
    body: &mut Body,
    seen: &mut Seen,
    loss: &mut Loss,
    ring: usize,
    first: i32,
)
    requires
        nodes_from(document@, reads@, *old(body), ids_of(*old(seen))),
        loss_from(document@, reads@, *old(loss)),
        curves_noted(document@, reads@, old(seen).curves@, old(loss).curves@),
        arenas_reached(document@, *old(body), ids_of(*old(seen))),
        ring_walks_reported(document@, reads@, loop_sources(old(body).loops@), old(loss).broken@, ring as int),
        ring < old(body).loops@.len(),
        old(body).loops@[ring as int].coedges@.len() == 0,
        first == link(named(document@, source_id(old(body).loops@[ring as int].provenance)), 2),
        rings_complete_except(
            document@,
            reads@,
            coedge_sources(old(body).coedges@),
            old(body).loops@,
            ring as int,
        ),
    ensures
        nodes_from(document@, reads@, *final(body), ids_of(*final(seen))),
        loss_from(document@, reads@, *final(loss)),
        curves_noted(document@, reads@, final(seen).curves@, final(loss).curves@),
        arenas_reached(document@, *final(body), ids_of(*final(seen))),
        ring_walks_reported(document@, reads@, loop_sources(final(body).loops@), final(loss).broken@, -1),
        ring_frame(*old(body), *final(body), ring as int),
        final(body).surfaces@ == old(body).surfaces@,
        final(seen).surfaces@ == old(seen).surfaces@,
        loop_sources(final(body).loops@) == loop_sources(old(body).loops@),
        rings_complete_except(
            document@,
            reads@,
            coedge_sources(final(body).coedges@),
            final(body).loops@,
            -1,
        ),
        grows(old(loss).curves@, final(loss).curves@),
        grows(old(loss).broken@, final(loss).broken@),
        final(loss).surfaces@ == old(loss).surfaces@,
        ring_reported(
            document@,
            reads@,
            source_id(final(body).loops@[ring as int].provenance),
            final(loss).curves@,
        ),
{
    let ghost d = document@;
    let ghost rd = reads@;
    let ghost br0 = loss.broken@;
    proof {
        assert(loop_from(d, *body, ring as int));
        lemma_named_by_node(d, source_id(body.loops@[ring as int].provenance), "loop"@, 2);
    }
    let ghost b0 = *body;
    let ghost s0 = *seen;
    let n = document.record_count();
    assert((n as int) * (n as int + 2) <= u128::MAX) by (nonlinear_arith)
        requires
            0 <= n <= 0xffff_ffff_ffff_ffffu64,
    ;
    let fuel: u128 = (n as u128) * (n as u128 + 2);
    let ghost total = ring_chain(d, rd, first as int, first as int, 0, ring_fuel(n as nat));
    let mut steps: u128 = 0;
    let mut made: u128 = 0;
    let mut pointer = first;
    let ghost sid = source_id(body.loops@[ring as int].provenance);
    let ghost j0 = resolve_slot(d, sid as i32)->Some_0;
    proof {
        super::document::lemma_first_slot(d, sid as i32);
    }
    let ghost cut_total = ring_cut(d, rd, first as int, first as int, 0, ring_fuel(n as nat));
    let ghost stop_total = ring_stop(d, rd, first as int, first as int, 0, ring_fuel(n as nat));
    assert(listed(coedge_sources(body.coedges@), body.loops@[ring as int].coedges@) =~= Seq::<
        int,
    >::empty());
    let ghost c0 = loss.curves@;
    let ghost sf0 = loss.surfaces@;
    let ghost all_visits = ring_visits(d, rd, first as int, first as int, 0, ring_fuel(n as nat));
    let ghost mut visited: Seq<int> = Seq::empty();
    assert(visited + all_visits =~= all_visits);
    while steps < fuel
        invariant_except_break
            made <= n,
            steps <= fuel,
            listed(coedge_sources(body.coedges@), body.loops@[ring as int].coedges@) + ring_chain(
                d,
                rd,
                first as int,
                pointer as int,
                made as nat,
                (fuel - steps) as nat,
            ) == total,
            visited + ring_visits(
                d,
                rd,
                first as int,
                pointer as int,
                made as nat,
                (fuel - steps) as nat,
            ) == all_visits,
            ring_cut(d, rd, first as int, pointer as int, made as nat, (fuel - steps) as nat) == cut_total,
            ring_stop(d, rd, first as int, pointer as int, made as nat, (fuel - steps) as nat) == stop_total,
        invariant
            stop_total == ring_stop(d, rd, first as int, first as int, 0, ring_fuel(n as nat)),
            visits_reported(d, visited, loss.broken@),
            0 <= j0 < d.len(),
            d[j0].kind == "loop"@,
            link(d[j0], 2) == first as int,
            cut_total == ring_cut(d, rd, first as int, first as int, 0, ring_fuel(n as nat)),
            d == document@,
            rd == reads@,
            n == d.len(),
            fuel == ring_fuel(n as nat),
            total == ring_chain(d, rd, first as int, first as int, 0, ring_fuel(n as nat)),
            nodes_from(d, rd, *body, ids_of(*seen)),
            arenas_reached(d, *body, ids_of(*seen)),
            ring_walks_reported(d, rd, loop_sources(body.loops@), loss.broken@, ring as int),
            grows(br0, loss.broken@),
            loss_from(d, rd, *loss),
            named_as(d, pointer as int, "loop"@, 2) || named_as(d, pointer as int, "coedge"@, 1),
            curves_noted(d, rd, seen.curves@, loss.curves@),
            ring < b0.loops@.len(),
            ring_frame(b0, *body, ring as int),
            body.surfaces@ == b0.surfaces@,
            seen.surfaces@ == s0.surfaces@,
            loop_sources(body.loops@) == loop_sources(b0.loops@),
            first == link(named(d, source_id(body.loops@[ring as int].provenance)), 2),
            rings_complete_except(d, rd, coedge_sources(body.coedges@), body.loops@, ring as int),
            all_visits == ring_visits(d, rd, first as int, first as int, 0, ring_fuel(n as nat)),
            grows(c0, loss.curves@),
            loss.surfaces@ == sf0,
            forall|k: int|
                0 <= k < visited.len() ==> curve_reported(d, rd, #[trigger] visited[k], loss.curves@),
        ensures
            cut_total matches Some(c) ==> loss.broken@.contains(c as usize),
            in_document(d, stop_total) && !names_kind(d, stop_total, "coedge"@) ==> loss.broken@.contains(
                stop_total as usize,
            ),
            visits_reported(d, all_visits, loss.broken@),
            ring_complete(d, rd, coedge_sources(body.coedges@), body.loops@, ring as int),
            forall|k: int|
                0 <= k < all_visits.len() ==> curve_reported(d, rd, #[trigger] all_visits[k], loss.curves@),
        decreases fuel - steps,
    {
        let ghost rest = ring_chain(d, rd, first as int, pointer as int, made as nat, (fuel - steps) as nat);
        let ghost cur = pointer as int;
        let ghost rest_cut = ring_cut(d, rd, first as int, pointer as int, made as nat, (fuel - steps) as nat);
        let ghost rest_stop = ring_stop(d, rd, first as int, pointer as int, made as nat, (fuel - steps) as nat);
        let ghost rest_visits = ring_visits(
            d,
            rd,
            first as int,
            pointer as int,
            made as nat,
            (fuel - steps) as nat,
        );
        let ghost done = listed(coedge_sources(body.coedges@), body.loops@[ring as int].coedges@);
        steps = steps + 1;
        let slot = match lookup(document, pointer) {
            Some(slot) => slot,
            None => {
                assert(rest_stop == pointer as int);
                assert(rest_cut is None);
                assert(rest =~= Seq::<int>::empty());
                assert(done + rest =~= done);
                assert(visited + rest_visits =~= visited);
                break;
            },
        };
        let record = &document.records[slot];
        assert(record@ == d[slot as int]);
        if !kind_is(record, "coedge") {
            proof {
                lemma_note_fault(d, rd, loss.broken@, pointer as int);
            }
            let ghost broken_before = loss.broken@;
            note(&mut loss.broken, record);
            proof {
                lemma_ring_walks_still_reported(d, rd, loop_sources(body.loops@), broken_before, loss.broken@, ring as int);
                lemma_visits_still_reported(d, visited, broken_before, loss.broken@);
                assert(rest_stop == pointer as int);
                assert(loss.broken@[loss.broken@.len() - 1] == pointer as usize);
            }
            assert(rest_cut is None);
            assert(rest =~= Seq::<int>::empty());
            assert(done + rest =~= done);
            assert(visited + rest_visits =~= visited);
            break;
        }
        let ghost here: Seq<int> = if edge_lifts(d, rd, link(record@, 4)) {
            seq![pointer as int]
        } else {
            Seq::empty()
        };
        let ghost curves_before = loss.curves@;
        let ghost before_edge = *body;
        let ghost broken_at_edge = loss.broken@;
        let ghost loops_at_edge = loop_sources(body.loops@);
        match edge_of(document, reads, body, seen, loss, pointer_at(record, 4)) {
            Some(edge) => {
                let ghost b1 = *body;
                let c = body.coedges.len();
                let co = Coedge {
                    edge,
                    forward: is_forward(record, 5),
                    owner: ring,
                    provenance: Provenance::Clean(pointer as u32),
                };
                body.coedges.push(co);
                body.edges[edge].coedges.push(c);
                body.loops[ring].coedges.push(c);
                proof {
                    assert forall|x: int| 0 <= x < body.edges@.len() && x != -1 implies (
                    #[trigger] body.edges@[x]).coedges@.len() > 0 by {
                        assert(arenas_reached_but(d, b1, ids_of(*seen), before_edge.edges@.len() as int));
                        if x == edge as int {
                            assert(body.edges@[x].coedges@ == b1.edges@[x].coedges@.push(c));
                        } else {
                            assert(body.edges@[x] == b1.edges@[x]);
                            if x == before_edge.edges@.len() {
                                assert(b1.edges@.len() > before_edge.edges@.len());
                                assert(edge == before_edge.edges@.len());
                            }
                            assert(b1.edges@[x].coedges@.len() > 0);
                        }
                    }
                    lemma_arenas_kept(
                        d,
                        b1,
                        ids_of(*seen),
                        before_edge.edges@.len() as int,
                        *body,
                        ids_of(*seen),
                        -1,
                    );
                    lemma_add_coedge(
                        d,
                        rd,
                        b1,
                        ids_of(*seen),
                        *body,
                        co,
                        body.edges@[edge as int],
                        body.loops@[ring as int],
                    );
                    let src1 = coedge_sources(b1.coedges@);
                    assert(coedge_sources(body.coedges@) =~= src1.push(pointer as int));
                    assert(loop_sources(body.loops@) =~= loop_sources(b1.loops@));
                    assert(loop_from(d, b1, ring as int));
                    lemma_listed_extend(src1, pointer as int, b1.loops@[ring as int].coedges@);
                    assert forall|l: int|
                        0 <= l < body.loops@.len() && l != ring implies #[trigger] ring_complete(
                        d,
                        rd,
                        coedge_sources(body.coedges@),
                        body.loops@,
                        l,
                    ) by {
                        assert(loop_from(d, b1, l));
                        assert(ring_complete(d, rd, src1, b1.loops@, l));
                        lemma_listed_push(src1, pointer as int, b1.loops@[l].coedges@);
                    }
                }
                made = made + 1;
            },
            None => {
                proof {
                    lemma_arenas_kept(
                        d,
                        *body,
                        ids_of(*seen),
                        before_edge.edges@.len() as int,
                        *body,
                        ids_of(*seen),
                        -1,
                    );
                }
            },
        }
        proof {
            assert(loop_sources(body.loops@) =~= loops_at_edge);
            lemma_ring_walks_still_reported(d, rd, loops_at_edge, broken_at_edge, loss.broken@, ring as int);
        }
        assert(listed(coedge_sources(body.coedges@), body.loops@[ring as int].coedges@) == done + here);
        proof {
            let ghost old_visited = visited;
            assert forall|k: int| 0 <= k < old_visited.len() implies curve_reported(
                d,
                rd,
                #[trigger] old_visited[k],
                loss.curves@,
            ) by {
                let c = old_visited[k];
                assert(curve_reported(d, rd, c, curves_before));
                let e = link(named(d, c), 4);
                let cv = link(named(d, e), 6);
                if names_kind(d, e, "edge"@) && unread_curve(d, rd, cv) {
                    lemma_grows_contains(curves_before, loss.curves@, cv as usize);
                }
            }
            lemma_grows_trans(c0, curves_before, loss.curves@);
            assert(curve_reported(d, rd, pointer as int, loss.curves@));
            lemma_visits_still_reported(d, old_visited, broken_at_edge, loss.broken@);
            assert(named(d, pointer as int) == record@);
            assert(edge_reported(d, link(named(d, pointer as int), 4), loss.broken@));
            visited = visited.push(pointer as int);
            assert forall|k: int| 0 <= k < visited.len() implies edge_reported(
                d,
                link(named(d, #[trigger] visited[k]), 4),
                loss.broken@,
            ) by {
                if k < old_visited.len() {
                    assert(visited[k] == old_visited[k]);
                }
            }
            assert forall|k: int| 0 <= k < visited.len() implies curve_reported(
                d,
                rd,
                #[trigger] visited[k],
                loss.curves@,
            ) by {
                if k < old_visited.len() {
                    assert(visited[k] == old_visited[k]);
                }
            }
        }
        proof {
            lemma_named_from(d, slot as int, "coedge"@, 1);
            lemma_named_from(d, slot as int, "coedge"@, 4);
        }
        let next = pointer_at(record, 1);
        if next == first || next < 0 {
            assert(rest_cut is None);
            assert(rest_stop == -1);
            assert(rest == here);
            assert(done + here + Seq::<int>::empty() =~= done + here);
            assert(rest_visits == seq![pointer as int]);
            assert(visited + Seq::<int>::empty() =~= visited);
            break;
        }
        pointer = next;
        if made > n as u128 {
            proof {
                assert(rest_cut == Some(cur));
                assert(cuts_a_ring(d, rd, cur));
                lemma_note_fault(d, rd, loss.broken@, cur);
            }
            let ghost broken_before = loss.broken@;
            note(&mut loss.broken, record);
            proof {
                lemma_ring_walks_still_reported(d, rd, loop_sources(body.loops@), broken_before, loss.broken@, ring as int);
                lemma_visits_still_reported(d, visited, broken_before, loss.broken@);
                assert(rest_stop == -1);
            }
            assert(loss.broken@[loss.broken@.len() - 1] == cur as usize);
            assert(rest == here);
            assert(rest_visits == seq![cur]);
            assert(visited =~= all_visits);
            break;
        }
        assert(rest_visits == seq![cur] + ring_visits(
            d,
            rd,
            first as int,
            pointer as int,
            made as nat,
            (fuel - steps) as nat,
        ));
        assert(visited + ring_visits(
            d,
            rd,
            first as int,
            pointer as int,
            made as nat,
            (fuel - steps) as nat,
        ) =~= (visited.drop_last() + rest_visits));
        assert(rest_cut == ring_cut(d, rd, first as int, pointer as int, made as nat, (fuel - steps) as nat));
        assert(rest_stop == ring_stop(d, rd, first as int, pointer as int, made as nat, (fuel - steps) as nat));
        assert(done + rest =~= (done + here) + ring_chain(
            d,
            rd,
            first as int,
            pointer as int,
            made as nat,
            (fuel - steps) as nat,
        ));
    }    proof {
        assert forall|l: int|
            0 <= l < loop_sources(body.loops@).len() && l != -1 implies #[trigger] ring_walk_reported(
            d,
            rd,
            loop_sources(body.loops@)[l],
            loss.broken@,
        ) by {
            if l == ring as int {
                assert(loop_sources(body.loops@)[l] == source_id(body.loops@[ring as int].provenance));
            }
        }
    }
}

/// What walking one face's loops leaves as it was.
spec fn face_frame(b1: Body, s1: Seen, b2: Body, s2: Seen, face: int) -> bool {
    &&& b2.shells@ == b1.shells@ && b2.lumps@ == b1.lumps@ && b2.roots@ == b1.roots@
    &&& b2.provenance == b1.provenance
    &&& b2.surfaces@ == b1.surfaces@ && s2.surfaces@ == s1.surfaces@
    &&& b2.faces@.len() == b1.faces@.len()
    &&& forall|i: int| 0 <= i < b1.faces@.len() && i != face ==> #[trigger] b2.faces@[i] == b1.faces@[i]
    &&& b2.faces@[face].owner == b1.faces@[face].owner
    &&& b2.faces@[face].provenance == b1.faces@[face].provenance
    &&& b2.faces@[face].surface == b1.faces@[face].surface
    &&& b2.faces@[face].forward == b1.faces@[face].forward
}

/// Walks the loops of face `face`, starting at `first`, making each one and
/// its ring of coedges. The walk stops at a record that is missing or not a
/// loop, or after as many steps as the document has records.
fn lift_loops(
    document: &SatDocument,
    reads: &Vec<Reading>,
    body: &mut Body,
    seen: &mut Seen,
    loss: &mut Loss,
    face: usize,
    first: i32,
)
    requires
        nodes_from(document@, reads@, *old(body), ids_of(*old(seen))),
        loss_from(document@, reads@, *old(loss)),
        curves_noted(document@, reads@, old(seen).curves@, old(loss).curves@),
        arenas_reached(document@, *old(body), ids_of(*old(seen))),
        ring_walks_reported(document@, reads@, loop_sources(old(body).loops@), old(loss).broken@, -1),
        lists_reported(document@, face_sources(old(body).faces@), 2, "loop"@, old(loss).broken@, face as int),
        face < old(body).faces@.len(),
        old(body).faces@[face as int].loops@.len() == 0,
        first == link(named(document@, source_id(old(body).faces@[face as int].provenance)), 2),
        rings_complete_except(document@, reads@, coedge_sources(old(body).coedges@), old(body).loops@, -1),
        faces_complete_except(document@, loop_sources(old(body).loops@), old(body).faces@, face as int),
        curves_reported(document@, reads@, loop_sources(old(body).loops@), old(loss).curves@, -1),
    ensures
        nodes_from(document@, reads@, *final(body), ids_of(*final(seen))),
        loss_from(document@, reads@, *final(loss)),
        curves_noted(document@, reads@, final(seen).curves@, final(loss).curves@),
        arenas_reached(document@, *final(body), ids_of(*final(seen))),
        ring_walks_reported(document@, reads@, loop_sources(final(body).loops@), final(loss).broken@, -1),
        lists_reported(document@, face_sources(final(body).faces@), 2, "loop"@, final(loss).broken@, -1),
        face_frame(*old(body), *old(seen), *final(body), *final(seen), face as int),
        face_sources(final(body).faces@) == face_sources(old(body).faces@),
        rings_complete_except(
            document@,
            reads@,
            coedge_sources(final(body).coedges@),
            final(body).loops@,
            -1,
        ),
        faces_complete_except(document@, loop_sources(final(body).loops@), final(body).faces@, -1),
        grows(old(loss).curves@, final(loss).curves@),
        grows(old(loss).broken@, final(loss).broken@),
        final(loss).surfaces@ == old(loss).surfaces@,
        curves_reported(document@, reads@, loop_sources(final(body).loops@), final(loss).curves@, -1),
{
    let ghost d = document@;
    let ghost rd = reads@;
    let ghost br0 = loss.broken@;
    proof {
        assert(face_from(d, *body, ids_of(*seen), face as int));
        lemma_named_by_node(d, source_id(body.faces@[face as int].provenance), "face"@, 2);
    }
    let ghost b0 = *body;
    let ghost s0 = *seen;
    let n = document.record_count();
    let ghost total = chain(d, first as int, "loop"@, 1, n as nat);
    let ghost stop_total = chain_stop(d, first as int, "loop"@, 1, n as nat);
    let mut steps: usize = 0;
    let mut pointer = first;
    let ghost c0 = loss.curves@;
    let ghost sf0 = loss.surfaces@;
    assert(listed(loop_sources(body.loops@), body.faces@[face as int].loops@) =~= Seq::<int>::empty());
    while steps < n
        invariant_except_break
            listed(loop_sources(body.loops@), body.faces@[face as int].loops@) + chain(
                d,
                pointer as int,
                "loop"@,
                1,
                (n - steps) as nat,
            ) == total,
            chain_stop(d, pointer as int, "loop"@, 1, (n - steps) as nat) == stop_total,
        invariant
            stop_total == chain_stop(d, first as int, "loop"@, 1, n as nat),
            lists_reported(d, face_sources(body.faces@), 2, "loop"@, loss.broken@, face as int),
            d == document@,
            rd == reads@,
            n == d.len(),
            steps <= n,
            total == chain(d, first as int, "loop"@, 1, n as nat),
            nodes_from(d, rd, *body, ids_of(*seen)),
            arenas_reached(d, *body, ids_of(*seen)),
            ring_walks_reported(d, rd, loop_sources(body.loops@), loss.broken@, -1),
            grows(br0, loss.broken@),
            loss_from(d, rd, *loss),
            named_as(d, pointer as int, "face"@, 2) || named_as(d, pointer as int, "loop"@, 1),
            curves_noted(d, rd, seen.curves@, loss.curves@),
            face < b0.faces@.len(),
            face_frame(b0, s0, *body, *seen, face as int),
            face_sources(body.faces@) == face_sources(b0.faces@),
            first == link(named(d, source_id(body.faces@[face as int].provenance)), 2),
            rings_complete_except(d, rd, coedge_sources(body.coedges@), body.loops@, -1),
            faces_complete_except(d, loop_sources(body.loops@), body.faces@, face as int),
            grows(c0, loss.curves@),
            loss.surfaces@ == sf0,
            curves_reported(d, rd, loop_sources(body.loops@), loss.curves@, -1),
        ensures
            face_complete(d, loop_sources(body.loops@), body.faces@, face as int),
            in_document(d, stop_total) && !names_kind(d, stop_total, "loop"@) ==> loss.broken@.contains(
                stop_total as usize,
            ),
        decreases n - steps,
    {
        let ghost rest = chain(d, pointer as int, "loop"@, 1, (n - steps) as nat);
        let ghost rest_stop = chain_stop(d, pointer as int, "loop"@, 1, (n - steps) as nat);
        let ghost done = listed(loop_sources(body.loops@), body.faces@[face as int].loops@);
        steps = steps + 1;
        let slot = match lookup(document, pointer) {
            Some(slot) => slot,
            None => {
                assert(rest_stop == pointer as int);
                assert(done + rest =~= done);
                break;
            },
        };
        let record = &document.records[slot];
        assert(record@ == d[slot as int]);
        if !kind_is(record, "loop") {
            proof {
                lemma_note_fault(d, rd, loss.broken@, pointer as int);
            }
            let ghost broken_before = loss.broken@;
            note(&mut loss.broken, record);
            proof {
                lemma_ring_walks_still_reported(d, rd, loop_sources(body.loops@), broken_before, loss.broken@, -1);
                lemma_lists_still_reported(
                    d,
                    face_sources(body.faces@),
                    2,
                    "loop"@,
                    broken_before,
                    loss.broken@,
                    face as int,
                );
                assert(rest_stop == pointer as int);
                assert(loss.broken@[loss.broken@.len() - 1] == pointer as usize);
            }
            assert(done + rest =~= done);
            break;
        }
        let ghost b1 = *body;
        let l = body.loops.len();
        let ring = Loop { coedges: Vec::new(), owner: face, provenance: Provenance::Clean(pointer as u32) };
        body.loops.push(ring);
        body.faces[face].loops.push(l);
        proof {
            lemma_arenas_kept(d, b1, ids_of(*seen), -1, *body, ids_of(*seen), -1);
            lemma_add_loop(d, rd, b1, ids_of(*seen), *body, ring, body.faces@[face as int]);
            let src1 = loop_sources(b1.loops@);
            assert(loop_sources(body.loops@) =~= src1.push(pointer as int));
            assert(face_sources(body.faces@) =~= face_sources(b1.faces@));
            assert(face_from(d, b1, ids_of(*seen), face as int));
            lemma_listed_extend(src1, pointer as int, b1.faces@[face as int].loops@);
            assert forall|k: int|
                0 <= k < body.loops@.len() && k != l implies #[trigger] ring_complete(
                d,
                rd,
                coedge_sources(body.coedges@),
                body.loops@,
                k,
            ) by {
                if k < l {
                    assert(ring_complete(d, rd, coedge_sources(b1.coedges@), b1.loops@, k));
                }
            }
            assert forall|f: int|
                0 <= f < body.faces@.len() && f != face implies #[trigger] face_complete(
                d,
                loop_sources(body.loops@),
                body.faces@,
                f,
            ) by {
                assert(face_from(d, b1, ids_of(*seen), f));
                assert(face_complete(d, src1, b1.faces@, f));
                lemma_listed_push(src1, pointer as int, b1.faces@[f].loops@);
            }
        }
        proof {
            let src = loop_sources(body.loops@);
            assert forall|k: int| 0 <= k < src.len() && k != l implies #[trigger] ring_reported(
                d,
                rd,
                src[k],
                loss.curves@,
            ) by {
                assert(ring_reported(d, rd, loop_sources(b1.loops@)[k], loss.curves@));
            }
        }
        let ghost curves_before = loss.curves@;
        let ghost broken_before_ring = loss.broken@;
        let ghost faces_before_ring = body.faces@;
        lift_ring(document, reads, body, seen, loss, l, pointer_at(record, 2));
        proof {
            assert(body.faces@ == faces_before_ring);
            lemma_lists_still_reported(
                d,
                face_sources(body.faces@),
                2,
                "loop"@,
                broken_before_ring,
                loss.broken@,
                face as int,
            );
            let src = loop_sources(body.loops@);
            lemma_curves_still_reported(d, rd, src, curves_before, loss.curves@, l as int);
            lemma_grows_trans(c0, curves_before, loss.curves@);
            assert(ring_reported(d, rd, src[l as int], loss.curves@));
        }
        proof {
            lemma_named_from(d, slot as int, "loop"@, 1);
            assert(names_kind(d, pointer as int, "loop"@));
            assert(named(d, pointer as int) == record@);
        }
        pointer = pointer_at(record, 1);
        assert(rest_stop == chain_stop(d, pointer as int, "loop"@, 1, (n - steps) as nat));
        assert(done + rest =~= listed(loop_sources(body.loops@), body.faces@[face as int].loops@)
            + chain(d, pointer as int, "loop"@, 1, (n - steps) as nat));
    }    proof {
        assert forall|k: int|
            0 <= k < face_sources(body.faces@).len() && k != -1 implies #[trigger] list_reported(
            d,
            face_sources(body.faces@)[k],
            2,
            "loop"@,
            loss.broken@,
        ) by {
            if k == face as int {
                assert(face_sources(body.faces@)[k] == source_id(body.faces@[face as int].provenance));
            }
        }
    }
}

/// What walking one shell's faces leaves as it was.
spec fn shell_frame(b1: Body, b2: Body, shell: int) -> bool {
    &&& b2.lumps@ == b1.lumps@ && b2.roots@ == b1.roots@ && b2.provenance == b1.provenance
    &&& b2.shells@.len() == b1.shells@.len()
    &&& forall|i: int| 0 <= i < b1.shells@.len() && i != shell ==> #[trigger] b2.shells@[i] == b1.shells@[i]
    &&& b2.shells@[shell].owner == b1.shells@[shell].owner
    &&& b2.shells@[shell].provenance == b1.shells@[shell].provenance
}

/// Makes the face a record names, in shell `shell`, with its loops, when
/// its surface is readable.
fn lift_face(
    document: &SatDocument,
    reads: &Vec<Reading>,
    body: &mut Body,
    seen: &mut Seen,
    loss: &mut Loss,
    record: &SatRecord,
    pointer: i32,
    shell: usize,
)
    requires
        nodes_from(document@, reads@, *old(body), ids_of(*old(seen))),
        loss_from(document@, reads@, *old(loss)),
        curves_noted(document@, reads@, old(seen).curves@, old(loss).curves@),
        arenas_reached(document@, *old(body), ids_of(*old(seen))),
        ring_walks_reported(document@, reads@, loop_sources(old(body).loops@), old(loss).broken@, -1),
        lists_reported(document@, face_sources(old(body).faces@), 2, "loop"@, old(loss).broken@, -1),
        shell < old(body).shells@.len(),
        names_kind(document@, pointer as int, "face"@),
        record@ == named(document@, pointer as int),
        pointer >= 0,
        rings_complete_except(document@, reads@, coedge_sources(old(body).coedges@), old(body).loops@, -1),
        faces_complete_except(document@, loop_sources(old(body).loops@), old(body).faces@, -1),
        shells_complete_except(
            document@,
            reads@,
            face_sources(old(body).faces@),
            old(body).shells@,
            shell as int,
        ),
        curves_reported(document@, reads@, loop_sources(old(body).loops@), old(loss).curves@, -1),
    ensures
        nodes_from(document@, reads@, *final(body), ids_of(*final(seen))),
        loss_from(document@, reads@, *final(loss)),
        curves_noted(document@, reads@, final(seen).curves@, final(loss).curves@),
        arenas_reached(document@, *final(body), ids_of(*final(seen))),
        ring_walks_reported(document@, reads@, loop_sources(final(body).loops@), final(loss).broken@, -1),
        lists_reported(document@, face_sources(final(body).faces@), 2, "loop"@, final(loss).broken@, -1),
        shell_frame(*old(body), *final(body), shell as int),
        shell_sources(final(body).shells@) == shell_sources(old(body).shells@),
        rings_complete_except(
            document@,
            reads@,
            coedge_sources(final(body).coedges@),
            final(body).loops@,
            -1,
        ),
        faces_complete_except(document@, loop_sources(final(body).loops@), final(body).faces@, -1),
        shells_complete_except(
            document@,
            reads@,
            face_sources(final(body).faces@),
            final(body).shells@,
            shell as int,
        ),
        listed(face_sources(final(body).faces@), final(body).shells@[shell as int].faces@) == listed(
            face_sources(old(body).faces@),
            old(body).shells@[shell as int].faces@,
        ) + (if surface_lifts(document@, reads@, link(record@, 5)) {
            seq![pointer as int]
        } else {
            Seq::<int>::empty()
        }),
        grows(old(loss).curves@, final(loss).curves@),
        grows(old(loss).broken@, final(loss).broken@),
        grows(old(loss).surfaces@, final(loss).surfaces@),
        curves_reported(document@, reads@, loop_sources(final(body).loops@), final(loss).curves@, -1),
        surface_reported(document@, reads@, pointer as int, final(loss).surfaces@),
{
    let ghost d = document@;
    let ghost rd = reads@;
    let ghost br0 = loss.broken@;
    let ghost b0 = *body;
    let ghost s0 = *seen;
    let surface = match geometry_of(
        document,
        reads,
        &mut body.surfaces,
        &mut seen.surfaces,
        &mut loss.surfaces,
        pointer_at(record, 5),
    ) {
        Some(k) => k,
        None => {
            proof {
                lemma_same_nodes(d, rd, b0, ids_of(s0), *body, ids_of(*seen));
                lemma_arenas_kept(d, b0, ids_of(s0), -1, *body, ids_of(*seen), -1);
                assert(shell_sources(body.shells@) =~= shell_sources(b0.shells@));
                assert(listed(face_sources(body.faces@), body.shells@[shell as int].faces@) + Seq::<
                    int,
                >::empty() =~= listed(face_sources(body.faces@), body.shells@[shell as int].faces@));
            }
            return;
        },
    };
    proof {
        if body.surfaces@ != b0.surfaces@ {
            lemma_add_surface(
                d,
                rd,
                b0,
                ids_of(s0),
                *body,
                ids_of(*seen),
                body.surfaces@[surface as int],
                pointer_field(record@, 5),
            );
        } else {
            lemma_same_nodes(d, rd, b0, ids_of(s0), *body, ids_of(*seen));
        }
    }
    let ghost b1 = *body;
    let f = body.faces.len();
    let face = Face {
        surface,
        forward: is_forward(record, 6),
        loops: Vec::new(),
        owner: shell,
        provenance: Provenance::Clean(pointer as u32),
    };
    body.faces.push(face);
    body.shells[shell].faces.push(f);
    proof {
        assert(body.faces@[f as int].surface == surface);
        assert forall|k: int| b0.surfaces@.len() <= k < body.surfaces@.len() implies #[trigger] bounds_a_face(
            *body,
            k,
        ) by {
            assert(k == surface);
        }
        lemma_arenas_kept(d, b0, ids_of(s0), -1, *body, ids_of(*seen), -1);
        lemma_add_face(d, rd, b1, ids_of(*seen), *body, face, body.shells@[shell as int]);
        let src1 = face_sources(b1.faces@);
        assert(face_sources(body.faces@) =~= src1.push(pointer as int));
        assert(shell_sources(body.shells@) =~= shell_sources(b1.shells@));
        assert(shell_from(d, b1, shell as int));
        lemma_listed_extend(src1, pointer as int, b1.shells@[shell as int].faces@);
        assert forall|k: int|
            0 <= k < body.faces@.len() && k != f implies #[trigger] face_complete(
            d,
            loop_sources(body.loops@),
            body.faces@,
            k,
        ) by {
            assert(face_complete(d, loop_sources(b1.loops@), b1.faces@, k));
        }
        assert forall|k: int|
            0 <= k < body.shells@.len() && k != shell implies #[trigger] shell_complete(
            d,
            rd,
            face_sources(body.faces@),
            body.shells@,
            k,
        ) by {
            assert(shell_from(d, b1, k));
            assert(shell_complete(d, rd, src1, b1.shells@, k));
            lemma_listed_push(src1, pointer as int, b1.shells@[k].faces@);
        }
    }
    proof {
        assert forall|k: int|
            0 <= k < face_sources(body.faces@).len() && k != f as int implies #[trigger] list_reported(
            d,
            face_sources(body.faces@)[k],
            2,
            "loop"@,
            loss.broken@,
        ) by {
            assert(face_sources(body.faces@)[k] == face_sources(b0.faces@)[k]);
        }
    }
    lift_loops(document, reads, body, seen, loss, f, pointer_at(record, 2));
}

/// Walks the faces of shell `shell`, starting at `first`. A face whose
/// surface is not readable is left out and the walk goes on to the next.
fn lift_faces(
    document: &SatDocument,
    reads: &Vec<Reading>,
    body: &mut Body,
    seen: &mut Seen,
    loss: &mut Loss,
    shell: usize,
    first: i32,
)
    requires
        nodes_from(document@, reads@, *old(body), ids_of(*old(seen))),
        loss_from(document@, reads@, *old(loss)),
        curves_noted(document@, reads@, old(seen).curves@, old(loss).curves@),
        arenas_reached(document@, *old(body), ids_of(*old(seen))),
        ring_walks_reported(document@, reads@, loop_sources(old(body).loops@), old(loss).broken@, -1),
        lists_reported(document@, face_sources(old(body).faces@), 2, "loop"@, old(loss).broken@, -1),
        lists_reported(document@, shell_sources(old(body).shells@), 3, "face"@, old(loss).broken@, shell as int),
        shell < old(body).shells@.len(),
        old(body).shells@[shell as int].faces@.len() == 0,
        first == link(named(document@, source_id(old(body).shells@[shell as int].provenance)), 3),
        rings_complete_except(document@, reads@, coedge_sources(old(body).coedges@), old(body).loops@, -1),
        faces_complete_except(document@, loop_sources(old(body).loops@), old(body).faces@, -1),
        shells_complete_except(
            document@,
            reads@,
            face_sources(old(body).faces@),
            old(body).shells@,
            shell as int,
        ),
        curves_reported(document@, reads@, loop_sources(old(body).loops@), old(loss).curves@, -1),
    ensures
        nodes_from(document@, reads@, *final(body), ids_of(*final(seen))),
        loss_from(document@, reads@, *final(loss)),
        curves_noted(document@, reads@, final(seen).curves@, final(loss).curves@),
        arenas_reached(document@, *final(body), ids_of(*final(seen))),
        ring_walks_reported(document@, reads@, loop_sources(final(body).loops@), final(loss).broken@, -1),
        lists_reported(document@, face_sources(final(body).faces@), 2, "loop"@, final(loss).broken@, -1),
        lists_reported(document@, shell_sources(final(body).shells@), 3, "face"@, final(loss).broken@, -1),
        shell_frame(*old(body), *final(body), shell as int),
        shell_sources(final(body).shells@) == shell_sources(old(body).shells@),
        rings_complete_except(
            document@,
            reads@,
            coedge_sources(final(body).coedges@),
            final(body).loops@,
            -1,
        ),
        faces_complete_except(document@, loop_sources(final(body).loops@), final(body).faces@, -1),
        shells_complete_except(document@, reads@, face_sources(final(body).faces@), final(body).shells@, -1),
        grows(old(loss).curves@, final(loss).curves@),
        grows(old(loss).broken@, final(loss).broken@),
        grows(old(loss).surfaces@, final(loss).surfaces@),
        curves_reported(document@, reads@, loop_sources(final(body).loops@), final(loss).curves@, -1),
        shell_reported(
            document@,
            reads@,
            source_id(final(body).shells@[shell as int].provenance),
            final(loss).surfaces@,
        ),
{
    let ghost d = document@;
    let ghost rd = reads@;
    let ghost br0 = loss.broken@;
    proof {
        assert(shell_from(d, *body, shell as int));
        lemma_named_by_node(d, source_id(body.shells@[shell as int].provenance), "shell"@, 3);
    }
    let ghost b0 = *body;
    let n = document.record_count();
    let ghost total = face_chain(d, rd, first as int, n as nat);
    let ghost stop_total = chain_stop(d, first as int, "face"@, 1, n as nat);
    let mut steps: usize = 0;
    let mut pointer = first;
    let ghost c0 = loss.curves@;
    let ghost sf0 = loss.surfaces@;
    let ghost all_visits = chain(d, first as int, "face"@, 1, n as nat);
    let ghost mut visited: Seq<int> = Seq::empty();
    assert(visited + all_visits =~= all_visits);
    assert(listed(face_sources(body.faces@), body.shells@[shell as int].faces@) =~= Seq::<int>::empty());
    while steps < n
        invariant_except_break
            listed(face_sources(body.faces@), body.shells@[shell as int].faces@) + face_chain(
                d,
                rd,
                pointer as int,
                (n - steps) as nat,
            ) == total,
            visited + chain(d, pointer as int, "face"@, 1, (n - steps) as nat) == all_visits,
            chain_stop(d, pointer as int, "face"@, 1, (n - steps) as nat) == stop_total,
        invariant
            stop_total == chain_stop(d, first as int, "face"@, 1, n as nat),
            lists_reported(d, shell_sources(body.shells@), 3, "face"@, loss.broken@, shell as int),
            d == document@,
            rd == reads@,
            n == d.len(),
            steps <= n,
            total == face_chain(d, rd, first as int, n as nat),
            nodes_from(d, rd, *body, ids_of(*seen)),
            arenas_reached(d, *body, ids_of(*seen)),
            ring_walks_reported(d, rd, loop_sources(body.loops@), loss.broken@, -1),
            lists_reported(d, face_sources(body.faces@), 2, "loop"@, loss.broken@, -1),
            grows(br0, loss.broken@),
            loss_from(d, rd, *loss),
            named_as(d, pointer as int, "shell"@, 3) || named_as(d, pointer as int, "face"@, 1),
            curves_noted(d, rd, seen.curves@, loss.curves@),
            shell < b0.shells@.len(),
            shell_frame(b0, *body, shell as int),
            shell_sources(body.shells@) == shell_sources(b0.shells@),
            first == link(named(d, source_id(body.shells@[shell as int].provenance)), 3),
            rings_complete_except(d, rd, coedge_sources(body.coedges@), body.loops@, -1),
            faces_complete_except(d, loop_sources(body.loops@), body.faces@, -1),
            shells_complete_except(d, rd, face_sources(body.faces@), body.shells@, shell as int),
            all_visits == chain(d, first as int, "face"@, 1, n as nat),
            grows(c0, loss.curves@),
            grows(sf0, loss.surfaces@),
            curves_reported(d, rd, loop_sources(body.loops@), loss.curves@, -1),
            forall|k: int|
                0 <= k < visited.len() ==> surface_reported(d, rd, #[trigger] visited[k], loss.surfaces@),
        ensures
            shell_complete(d, rd, face_sources(body.faces@), body.shells@, shell as int),
            in_document(d, stop_total) && !names_kind(d, stop_total, "face"@) ==> loss.broken@.contains(
                stop_total as usize,
            ),
            forall|k: int|
                0 <= k < all_visits.len() ==> surface_reported(d, rd, #[trigger] all_visits[k], loss.surfaces@),
        decreases n - steps,
    {
        let ghost rest = face_chain(d, rd, pointer as int, (n - steps) as nat);
        let ghost rest_visits = chain(d, pointer as int, "face"@, 1, (n - steps) as nat);
        let ghost rest_stop = chain_stop(d, pointer as int, "face"@, 1, (n - steps) as nat);
        let ghost done = listed(face_sources(body.faces@), body.shells@[shell as int].faces@);
        steps = steps + 1;
        let slot = match lookup(document, pointer) {
            Some(slot) => slot,
            None => {
                assert(rest_stop == pointer as int);
                assert(done + rest =~= done);
                assert(visited + rest_visits =~= visited);
                break;
            },
        };
        let record = &document.records[slot];
        assert(record@ == d[slot as int]);
        if !kind_is(record, "face") {
            proof {
                lemma_note_fault(d, rd, loss.broken@, pointer as int);
            }
            let ghost broken_before = loss.broken@;
            note(&mut loss.broken, record);
            proof {
                lemma_ring_walks_still_reported(d, rd, loop_sources(body.loops@), broken_before, loss.broken@, -1);
                lemma_lists_still_reported(d, face_sources(body.faces@), 2, "loop"@, broken_before, loss.broken@, -1);
                lemma_lists_still_reported(
                    d,
                    shell_sources(body.shells@),
                    3,
                    "face"@,
                    broken_before,
                    loss.broken@,
                    shell as int,
                );
                assert(rest_stop == pointer as int);
                assert(loss.broken@[loss.broken@.len() - 1] == pointer as usize);
            }
            assert(done + rest =~= done);
            assert(visited + rest_visits =~= visited);
            break;
        }
        let ghost surfaces_before = loss.surfaces@;
        let ghost curves_before = loss.curves@;
        let ghost broken_before_face = loss.broken@;
        lift_face(document, reads, body, seen, loss, record, pointer, shell);
        proof {
            lemma_lists_still_reported(
                d,
                shell_sources(body.shells@),
                3,
                "face"@,
                broken_before_face,
                loss.broken@,
                shell as int,
            );
            let old_visited = visited;
            assert forall|k: int| 0 <= k < old_visited.len() implies surface_reported(
                d,
                rd,
                #[trigger] old_visited[k],
                loss.surfaces@,
            ) by {
                let f = old_visited[k];
                assert(surface_reported(d, rd, f, surfaces_before));
                let sv = link(named(d, f), 5);
                if unread_surface(d, rd, sv) {
                    lemma_grows_contains(surfaces_before, loss.surfaces@, sv as usize);
                }
            }
            lemma_grows_trans(sf0, surfaces_before, loss.surfaces@);
            lemma_grows_trans(c0, curves_before, loss.curves@);
            visited = visited.push(pointer as int);
            assert forall|k: int| 0 <= k < visited.len() implies surface_reported(
                d,
                rd,
                #[trigger] visited[k],
                loss.surfaces@,
            ) by {
                if k < old_visited.len() {
                    assert(visited[k] == old_visited[k]);
                }
            }
            assert(names_kind(d, pointer as int, "face"@));
            assert(named(d, pointer as int) == record@);
            assert(rest_visits == seq![pointer as int] + chain(
                d,
                link(record@, 1),
                "face"@,
                1,
                (n - steps) as nat,
            ));
            assert(visited + chain(d, link(record@, 1), "face"@, 1, (n - steps) as nat) =~= old_visited
                + rest_visits);
        }
        proof {
            lemma_named_from(d, slot as int, "face"@, 1);
        }
        pointer = pointer_at(record, 1);
        assert(rest_stop == chain_stop(d, pointer as int, "face"@, 1, (n - steps) as nat));
        assert(done + rest =~= listed(face_sources(body.faces@), body.shells@[shell as int].faces@)
            + face_chain(d, rd, pointer as int, (n - steps) as nat));
    }    proof {
        assert forall|k: int|
            0 <= k < shell_sources(body.shells@).len() && k != -1 implies #[trigger] list_reported(
            d,
            shell_sources(body.shells@)[k],
            3,
            "face"@,
            loss.broken@,
        ) by {
            if k == shell as int {
                assert(shell_sources(body.shells@)[k] == source_id(body.shells@[shell as int].provenance));
            }
        }
    }
}

/// What walking one lump's shells leaves as it was.
spec fn lump_frame(b1: Body, b2: Body, lump: int) -> bool {
    &&& b2.roots@ == b1.roots@ && b2.provenance == b1.provenance
    &&& b2.lumps@.len() == b1.lumps@.len()
    &&& forall|i: int| 0 <= i < b1.lumps@.len() && i != lump ==> #[trigger] b2.lumps@[i] == b1.lumps@[i]
    &&& b2.lumps@[lump].provenance == b1.lumps@[lump].provenance
}

/// Walks the shells of lump `lump`, starting at `first`, and each shell's
/// faces.
fn lift_shells(
    document: &SatDocument,
    reads: &Vec<Reading>,
    body: &mut Body,
    seen: &mut Seen,
    loss: &mut Loss,
    lump: usize,
    first: i32,
)
    requires
        nodes_from(document@, reads@, *old(body), ids_of(*old(seen))),
        loss_from(document@, reads@, *old(loss)),
        curves_noted(document@, reads@, old(seen).curves@, old(loss).curves@),
        arenas_reached(document@, *old(body), ids_of(*old(seen))),
        ring_walks_reported(document@, reads@, loop_sources(old(body).loops@), old(loss).broken@, -1),
        lists_reported(document@, face_sources(old(body).faces@), 2, "loop"@, old(loss).broken@, -1),
        lists_reported(document@, shell_sources(old(body).shells@), 3, "face"@, old(loss).broken@, -1),
        lists_reported(document@, lump_sources(old(body).lumps@), 2, "shell"@, old(loss).broken@, lump as int),
        lump < old(body).lumps@.len(),
        old(body).lumps@[lump as int].shells@.len() == 0,
        first == link(named(document@, source_id(old(body).lumps@[lump as int].provenance)), 2),
        rings_complete_except(document@, reads@, coedge_sources(old(body).coedges@), old(body).loops@, -1),
        faces_complete_except(document@, loop_sources(old(body).loops@), old(body).faces@, -1),
        shells_complete_except(document@, reads@, face_sources(old(body).faces@), old(body).shells@, -1),
        lumps_complete_except(document@, shell_sources(old(body).shells@), old(body).lumps@, lump as int),
        curves_reported(document@, reads@, loop_sources(old(body).loops@), old(loss).curves@, -1),
        surfaces_reported(document@, reads@, shell_sources(old(body).shells@), old(loss).surfaces@, -1),
    ensures
        nodes_from(document@, reads@, *final(body), ids_of(*final(seen))),
        loss_from(document@, reads@, *final(loss)),
        curves_noted(document@, reads@, final(seen).curves@, final(loss).curves@),
        arenas_reached(document@, *final(body), ids_of(*final(seen))),
        ring_walks_reported(document@, reads@, loop_sources(final(body).loops@), final(loss).broken@, -1),
        lists_reported(document@, face_sources(final(body).faces@), 2, "loop"@, final(loss).broken@, -1),
        lists_reported(document@, shell_sources(final(body).shells@), 3, "face"@, final(loss).broken@, -1),
        lists_reported(document@, lump_sources(final(body).lumps@), 2, "shell"@, final(loss).broken@, -1),
        lump_frame(*old(body), *final(body), lump as int),
        lump_sources(final(body).lumps@) == lump_sources(old(body).lumps@),
        rings_complete_except(
            document@,
            reads@,
            coedge_sources(final(body).coedges@),
            final(body).loops@,
            -1,
        ),
        faces_complete_except(document@, loop_sources(final(body).loops@), final(body).faces@, -1),
        shells_complete_except(document@, reads@, face_sources(final(body).faces@), final(body).shells@, -1),
        lumps_complete_except(document@, shell_sources(final(body).shells@), final(body).lumps@, -1),
        grows(old(loss).curves@, final(loss).curves@),
        grows(old(loss).broken@, final(loss).broken@),
        grows(old(loss).surfaces@, final(loss).surfaces@),
        curves_reported(document@, reads@, loop_sources(final(body).loops@), final(loss).curves@, -1),
        surfaces_reported(document@, reads@, shell_sources(final(body).shells@), final(loss).surfaces@, -1),
{
    let ghost d = document@;
    let ghost rd = reads@;
    let ghost br0 = loss.broken@;
    proof {
        assert(lump_from(d, *body, lump as int));
        lemma_named_by_node(d, source_id(body.lumps@[lump as int].provenance), "lump"@, 2);
    }
    let ghost b0 = *body;
    let n = document.record_count();
    let ghost total = chain(d, first as int, "shell"@, 1, n as nat);
    let ghost stop_total = chain_stop(d, first as int, "shell"@, 1, n as nat);
    let mut steps: usize = 0;
    let mut pointer = first;
    let ghost c0 = loss.curves@;
    let ghost sf0 = loss.surfaces@;
    assert(listed(shell_sources(body.shells@), body.lumps@[lump as int].shells@) =~= Seq::<int>::empty());
    while steps < n
        invariant_except_break
            listed(shell_sources(body.shells@), body.lumps@[lump as int].shells@) + chain(
                d,
                pointer as int,
                "shell"@,
                1,
                (n - steps) as nat,
            ) == total,
            chain_stop(d, pointer as int, "shell"@, 1, (n - steps) as nat) == stop_total,
        invariant
            stop_total == chain_stop(d, first as int, "shell"@, 1, n as nat),
            lists_reported(d, lump_sources(body.lumps@), 2, "shell"@, loss.broken@, lump as int),
            d == document@,
            rd == reads@,
            n == d.len(),
            steps <= n,
            total == chain(d, first as int, "shell"@, 1, n as nat),
            nodes_from(d, rd, *body, ids_of(*seen)),
            arenas_reached(d, *body, ids_of(*seen)),
            ring_walks_reported(d, rd, loop_sources(body.loops@), loss.broken@, -1),
            lists_reported(d, face_sources(body.faces@), 2, "loop"@, loss.broken@, -1),
            lists_reported(d, shell_sources(body.shells@), 3, "face"@, loss.broken@, -1),
            grows(br0, loss.broken@),
            loss_from(d, rd, *loss),
            named_as(d, pointer as int, "lump"@, 2) || named_as(d, pointer as int, "shell"@, 1),
            curves_noted(d, rd, seen.curves@, loss.curves@),
            lump < b0.lumps@.len(),
            lump_frame(b0, *body, lump as int),
            lump_sources(body.lumps@) == lump_sources(b0.lumps@),
            first == link(named(d, source_id(body.lumps@[lump as int].provenance)), 2),
            rings_complete_except(d, rd, coedge_sources(body.coedges@), body.loops@, -1),
            faces_complete_except(d, loop_sources(body.loops@), body.faces@, -1),
            shells_complete_except(d, rd, face_sources(body.faces@), body.shells@, -1),
            lumps_complete_except(d, shell_sources(body.shells@), body.lumps@, lump as int),
            grows(c0, loss.curves@),
            grows(sf0, loss.surfaces@),
            curves_reported(d, rd, loop_sources(body.loops@), loss.curves@, -1),
            surfaces_reported(d, rd, shell_sources(body.shells@), loss.surfaces@, -1),
        ensures
            lump_complete(d, shell_sources(body.shells@), body.lumps@, lump as int),
            in_document(d, stop_total) && !names_kind(d, stop_total, "shell"@) ==> loss.broken@.contains(
                stop_total as usize,
            ),
        decreases n - steps,
    {
        let ghost rest = chain(d, pointer as int, "shell"@, 1, (n - steps) as nat);
        let ghost rest_stop = chain_stop(d, pointer as int, "shell"@, 1, (n - steps) as nat);
        let ghost done = listed(shell_sources(body.shells@), body.lumps@[lump as int].shells@);
        steps = steps + 1;
        let slot = match lookup(document, pointer) {
            Some(slot) => slot,
            None => {
                assert(rest_stop == pointer as int);
                assert(done + rest =~= done);
                break;
            },
        };
        let record = &document.records[slot];
        assert(record@ == d[slot as int]);
        if !kind_is(record, "shell") {
            proof {
                lemma_note_fault(d, rd, loss.broken@, pointer as int);
            }
            let ghost broken_before = loss.broken@;
            note(&mut loss.broken, record);
            proof {
                lemma_ring_walks_still_reported(d, rd, loop_sources(body.loops@), broken_before, loss.broken@, -1);
                lemma_lists_still_reported(d, face_sources(body.faces@), 2, "loop"@, broken_before, loss.broken@, -1);
                lemma_lists_still_reported(d, shell_sources(body.shells@), 3, "face"@, broken_before, loss.broken@, -1);
                lemma_lists_still_reported(
                    d,
                    lump_sources(body.lumps@),
                    2,
                    "shell"@,
                    broken_before,
                    loss.broken@,
                    lump as int,
                );
                assert(rest_stop == pointer as int);
                assert(loss.broken@[loss.broken@.len() - 1] == pointer as usize);
            }
            assert(done + rest =~= done);
            break;
        }
        let ghost b1 = *body;
        let sh = body.shells.len();
        let shell = Shell { faces: Vec::new(), owner: lump, provenance: Provenance::Clean(pointer as u32) };
        body.shells.push(shell);
        body.lumps[lump].shells.push(sh);
        proof {
            lemma_arenas_kept(d, b1, ids_of(*seen), -1, *body, ids_of(*seen), -1);
            lemma_add_shell(d, rd, b1, ids_of(*seen), *body, shell, body.lumps@[lump as int]);
            let src1 = shell_sources(b1.shells@);
            assert(shell_sources(body.shells@) =~= src1.push(pointer as int));
            assert(lump_sources(body.lumps@) =~= lump_sources(b1.lumps@));
            assert(lump_from(d, b1, lump as int));
            lemma_listed_extend(src1, pointer as int, b1.lumps@[lump as int].shells@);
            assert forall|k: int|
                0 <= k < body.shells@.len() && k != sh implies #[trigger] shell_complete(
                d,
                rd,
                face_sources(body.faces@),
                body.shells@,
                k,
            ) by {
                assert(shell_complete(d, rd, face_sources(b1.faces@), b1.shells@, k));
            }
            assert forall|k: int|
                0 <= k < body.lumps@.len() && k != lump implies #[trigger] lump_complete(
                d,
                shell_sources(body.shells@),
                body.lumps@,
                k,
            ) by {
                assert(lump_from(d, b1, k));
                assert(lump_complete(d, src1, b1.lumps@, k));
                lemma_listed_push(src1, pointer as int, b1.lumps@[k].shells@);
            }
        }
        proof {
            let src = shell_sources(body.shells@);
            assert forall|k: int| 0 <= k < src.len() && k != sh implies #[trigger] shell_reported(
                d,
                rd,
                src[k],
                loss.surfaces@,
            ) by {
                assert(shell_reported(d, rd, shell_sources(b1.shells@)[k], loss.surfaces@));
            }
        }
        let ghost surfaces_before = loss.surfaces@;
        let ghost curves_before = loss.curves@;
        proof {
            assert forall|k: int|
                0 <= k < shell_sources(body.shells@).len() && k != sh as int implies #[trigger] list_reported(
                d,
                shell_sources(body.shells@)[k],
                3,
                "face"@,
                loss.broken@,
            ) by {
                assert(shell_sources(body.shells@)[k] == shell_sources(b1.shells@)[k]);
            }
        }
        let ghost broken_before_faces = loss.broken@;
        let ghost lumps_before_faces = lump_sources(body.lumps@);
        lift_faces(document, reads, body, seen, loss, sh, pointer_at(record, 3));
        proof {
            assert(lump_sources(body.lumps@) =~= lumps_before_faces);
            lemma_lists_still_reported(
                d,
                lump_sources(body.lumps@),
                2,
                "shell"@,
                broken_before_faces,
                loss.broken@,
                lump as int,
            );
            let src = shell_sources(body.shells@);
            lemma_surfaces_still_reported(d, rd, src, surfaces_before, loss.surfaces@, sh as int);
            lemma_grows_trans(sf0, surfaces_before, loss.surfaces@);
            lemma_grows_trans(c0, curves_before, loss.curves@);
            assert(shell_reported(d, rd, src[sh as int], loss.surfaces@));
        }
        proof {
            lemma_named_from(d, slot as int, "shell"@, 1);
        }
        pointer = pointer_at(record, 1);
        assert(rest_stop == chain_stop(d, pointer as int, "shell"@, 1, (n - steps) as nat));
        assert(done + rest =~= listed(shell_sources(body.shells@), body.lumps@[lump as int].shells@)
            + chain(d, pointer as int, "shell"@, 1, (n - steps) as nat));
    }    proof {
        assert forall|k: int|
            0 <= k < lump_sources(body.lumps@).len() && k != -1 implies #[trigger] list_reported(
            d,
            lump_sources(body.lumps@)[k],
            2,
            "shell"@,
            loss.broken@,
        ) by {
            if k == lump as int {
                assert(lump_sources(body.lumps@)[k] == source_id(body.lumps@[lump as int].provenance));
            }
        }
    }
}

/// The body whose first lump `first` names, or `None` when it names no
/// lump record.
fn lift_one(
    document: &SatDocument,
    reads: &Vec<Reading>,
    at: Provenance,
    first: i32,
    loss: &mut Loss,
) -> (r: Option<Body>)
    requires
        loss_from(document@, reads@, *old(loss)),
        named_as(document@, first as int, "body"@, 1),
    ensures
        loss_from(document@, reads@, *final(loss)),
        r is Some <==> names_kind(document@, first as int, "lump"@),
        r matches Some(b) ==> b.provenance == at && b.roots@.len() > 0 && walk_complete(
            document@,
            reads@,
            b,
            first as int,
        ) && exists|ids: LiftIds| #[trigger] nodes_from(document@, reads@, b, ids) && arenas_reached(document@, b, ids)
            && loss_reports(document@, reads@, b, *final(loss)),
        grows(old(loss).curves@, final(loss).curves@),
        grows(old(loss).broken@, final(loss).broken@),
        grows(old(loss).surfaces@, final(loss).surfaces@),
        stop_reported(document@, first as int, "lump"@, final(loss).broken@),
{
    let ghost d = document@;
    let ghost rd = reads@;
    let ghost br0 = loss.broken@;
    let mut body = Body::new();
    body.provenance = at;
    let mut seen = Seen { vertices: Vec::new(), edges: Vec::new(), curves: Vec::new(), surfaces: Vec::new() };
    assert(nodes_from(d, rd, body, ids_of(seen)));
    let n = document.record_count();
    let ghost total = chain(d, first as int, "lump"@, 1, n as nat);
    let ghost stop_total = chain_stop(d, first as int, "lump"@, 1, n as nat);
    let mut steps: usize = 0;
    let mut pointer = first;
    let ghost c0 = loss.curves@;
    let ghost sf0 = loss.surfaces@;
    assert(listed(lump_sources(body.lumps@), body.roots@) =~= Seq::<int>::empty());
    while steps < n
        invariant_except_break
            body.roots@.len() == 0 ==> steps == 0,
            listed(lump_sources(body.lumps@), body.roots@) + chain(
                d,
                pointer as int,
                "lump"@,
                1,
                (n - steps) as nat,
            ) == total,
            chain_stop(d, pointer as int, "lump"@, 1, (n - steps) as nat) == stop_total,
        invariant
            stop_total == chain_stop(d, first as int, "lump"@, 1, n as nat),
            lists_reported(d, lump_sources(body.lumps@), 2, "shell"@, loss.broken@, -1),
            d == document@,
            rd == reads@,
            n == d.len(),
            steps <= n,
            total == chain(d, first as int, "lump"@, 1, n as nat),
            nodes_from(d, rd, body, ids_of(seen)),
            arenas_reached(d, body, ids_of(seen)),
            ring_walks_reported(d, rd, loop_sources(body.loops@), loss.broken@, -1),
            lists_reported(d, face_sources(body.faces@), 2, "loop"@, loss.broken@, -1),
            lists_reported(d, shell_sources(body.shells@), 3, "face"@, loss.broken@, -1),
            grows(br0, loss.broken@),
            loss_from(d, rd, *loss),
            named_as(d, pointer as int, "body"@, 1) || named_as(d, pointer as int, "lump"@, 1),
            curves_noted(d, rd, seen.curves@, loss.curves@),
            body.provenance == at,
            body.roots@.len() == 0 ==> pointer == first,
            body.roots@.len() > 0 ==> names_kind(d, first as int, "lump"@),
            rings_complete_except(d, rd, coedge_sources(body.coedges@), body.loops@, -1),
            faces_complete_except(d, loop_sources(body.loops@), body.faces@, -1),
            shells_complete_except(d, rd, face_sources(body.faces@), body.shells@, -1),
            lumps_complete_except(d, shell_sources(body.shells@), body.lumps@, -1),
            grows(c0, loss.curves@),
            grows(sf0, loss.surfaces@),
            curves_reported(d, rd, loop_sources(body.loops@), loss.curves@, -1),
            surfaces_reported(d, rd, shell_sources(body.shells@), loss.surfaces@, -1),
        ensures
            listed(lump_sources(body.lumps@), body.roots@) == total,
            in_document(d, stop_total) && !names_kind(d, stop_total, "lump"@) ==> loss.broken@.contains(
                stop_total as usize,
            ),
            body.roots@.len() > 0 ==> names_kind(d, first as int, "lump"@),
            body.roots@.len() == 0 ==> !names_kind(d, first as int, "lump"@),
            names_kind(d, first as int, "lump"@) ==> body.roots@.len() > 0,
        decreases n - steps,
    {
        let ghost rest = chain(d, pointer as int, "lump"@, 1, (n - steps) as nat);
        let ghost rest_stop = chain_stop(d, pointer as int, "lump"@, 1, (n - steps) as nat);
        let ghost done = listed(lump_sources(body.lumps@), body.roots@);
        steps = steps + 1;
        let slot = match lookup(document, pointer) {
            Some(slot) => slot,
            None => {
                assert(rest_stop == pointer as int);
                assert(done + rest =~= done);
                break;
            },
        };
        let record = &document.records[slot];
        assert(record@ == d[slot as int]);
        if !kind_is(record, "lump") {
            proof {
                lemma_note_fault(d, rd, loss.broken@, pointer as int);
            }
            let ghost broken_before = loss.broken@;
            note(&mut loss.broken, record);
            proof {
                lemma_ring_walks_still_reported(d, rd, loop_sources(body.loops@), broken_before, loss.broken@, -1);
                lemma_lists_still_reported(d, face_sources(body.faces@), 2, "loop"@, broken_before, loss.broken@, -1);
                lemma_lists_still_reported(d, shell_sources(body.shells@), 3, "face"@, broken_before, loss.broken@, -1);
                lemma_lists_still_reported(d, lump_sources(body.lumps@), 2, "shell"@, broken_before, loss.broken@, -1);
                assert(rest_stop == pointer as int);
                assert(loss.broken@[loss.broken@.len() - 1] == pointer as usize);
            }
            assert(done + rest =~= done);
            break;
        }
        let ghost b1 = body;
        let u = body.lumps.len();
        let lump = Lump { shells: Vec::new(), provenance: Provenance::Clean(pointer as u32) };
        body.lumps.push(lump);
        body.roots.push(u);
        proof {
            lemma_arenas_kept(d, b1, ids_of(seen), -1, body, ids_of(seen), -1);
            lemma_add_lump(d, rd, b1, ids_of(seen), body, lump);
            let src1 = lump_sources(b1.lumps@);
            assert(lump_sources(body.lumps@) =~= src1.push(pointer as int));
            lemma_listed_extend(src1, pointer as int, b1.roots@);
            assert forall|k: int|
                0 <= k < body.lumps@.len() && k != u implies #[trigger] lump_complete(
                d,
                shell_sources(body.shells@),
                body.lumps@,
                k,
            ) by {
                assert(lump_complete(d, shell_sources(b1.shells@), b1.lumps@, k));
            }
        }
        let ghost surfaces_before = loss.surfaces@;
        let ghost curves_before = loss.curves@;
        proof {
            assert forall|k: int|
                0 <= k < lump_sources(body.lumps@).len() && k != u as int implies #[trigger] list_reported(
                d,
                lump_sources(body.lumps@)[k],
                2,
                "shell"@,
                loss.broken@,
            ) by {
                assert(lump_sources(body.lumps@)[k] == lump_sources(b1.lumps@)[k]);
            }
        }
        lift_shells(document, reads, &mut body, &mut seen, loss, u, pointer_at(record, 2));
        proof {
            lemma_grows_trans(sf0, surfaces_before, loss.surfaces@);
            lemma_grows_trans(c0, curves_before, loss.curves@);
        }
        proof {
            lemma_named_from(d, slot as int, "lump"@, 1);
        }
        pointer = pointer_at(record, 1);
        assert(rest_stop == chain_stop(d, pointer as int, "lump"@, 1, (n - steps) as nat));
        assert(done + rest =~= listed(lump_sources(body.lumps@), body.roots@) + chain(
            d,
            pointer as int,
            "lump"@,
            1,
            (n - steps) as nat,
        ));
    }
    if body.roots.len() == 0 {
        None
    } else {
        Some(body)
    }
}

/// The provenance of a node lifted from a record with this id.
fn provenance_of(index: i32) -> (p: Provenance)
    ensures
        p == lifted_provenance(index as int),
{
    if index >= 0 {
        Provenance::Clean(index as u32)
    } else {
        Provenance::Synthesized
    }
}

/// One body, named by the array position of its `body` record, with what
/// lifting it could not represent.
///
/// `reads` holds, for each record slot, what the kernel makes of the record
/// there; a slot past its end is read as nothing.
pub fn lift_body(document: &SatDocument, reads: &Vec<Reading>, record: usize) -> (r: Option<(Body, Loss)>)
    ensures
        r is Some <==> lifts_body(document@, record as int),
        r matches Some((b, loss)) ==> lifted_body(document@, reads@, document@[record as int], b)
            && loss_from(document@, reads@, loss) && loss_reports(document@, reads@, b, loss)
            && stop_reported(document@, link(document@[record as int], 1), "lump"@, loss.broken@),
{
    if record >= document.record_count() {
        return None;
    }
    let source = &document.records[record];
    assert(source@ == document@[record as int]);
    if !kind_is(source, "body") {
        return None;
    }
    proof {
        lemma_named_from(document@, record as int, "body"@, 1);
    }
    let mut loss = Loss::new();
    match lift_one(document, reads, provenance_of(source.index), pointer_at(source, 1), &mut loss) {
        Some(b) => Some((b, loss)),
        None => None,
    }
}

/// Every body in the document, in the order of their records, with what
/// lifting them could not represent.
///
/// A body record whose first lump does not lift gives no body.
pub fn lift(document: &SatDocument, reads: &Vec<Reading>) -> (r: (Vec<Body>, Loss))
    ensures
        r.0@.len() == body_slots(document@, document@.len() as int).len(),
        forall|i: int|
            0 <= i < r.0@.len() ==> lifted_body(
                document@,
                reads@,
                document@[body_slots(document@, document@.len() as int)[i]],
                #[trigger] r.0@[i],
            ),
        loss_from(document@, reads@, r.1),
        forall|i: int| 0 <= i < r.0@.len() ==> loss_reports(document@, reads@, #[trigger] r.0@[i], r.1),
        forall|j: int|
            0 <= j < document@.len() && (#[trigger] document@[j]).kind == "body"@ ==> stop_reported(
                document@,
                link(document@[j], 1),
                "lump"@,
                r.1.broken@,
            ),
{
    let ghost d = document@;
    let ghost rd = reads@;
    let mut loss = Loss::new();
    let mut bodies: Vec<Body> = Vec::new();
    let n = document.record_count();
    let mut s: usize = 0;
    while s < n
        invariant
            d == document@,
            rd == reads@,
            n == d.len(),
            s <= n,
            loss_from(d, rd, loss),
            bodies@.len() == body_slots(d, s as int).len(),
            forall|i: int|
                0 <= i < bodies@.len() ==> lifted_body(
                    d,
                    rd,
                    d[body_slots(d, s as int)[i]],
                    #[trigger] bodies@[i],
                ),
            forall|i: int| 0 <= i < bodies@.len() ==> loss_reports(d, rd, #[trigger] bodies@[i], loss),
            forall|j: int|
                0 <= j < s && (#[trigger] d[j]).kind == "body"@ ==> stop_reported(
                    d,
                    link(d[j], 1),
                    "lump"@,
                    loss.broken@,
                ),
        decreases n - s,
    {
        let source = &document.records[s];
        assert(source@ == d[s as int]);
        let ghost before = bodies@;
        let ghost loss_before = loss;
        if kind_is(source, "body") {
            proof {
                lemma_named_from(d, s as int, "body"@, 1);
            }
            match lift_one(document, reads, provenance_of(source.index), pointer_at(source, 1), &mut loss) {
                Some(b) => {
                    bodies.push(b);
                },
                None => {},
            }
        }
        proof {
            assert forall|i: int| 0 <= i < bodies@.len() implies loss_reports(
                d,
                rd,
                #[trigger] bodies@[i],
                loss,
            ) by {
                if i < before.len() {
                    assert(bodies@[i] == before[i]);
                    assert(loss_reports(d, rd, before[i], loss_before));
                    lemma_surfaces_still_reported(
                        d,
                        rd,
                        shell_sources(before[i].shells@),
                        loss_before.surfaces@,
                        loss.surfaces@,
                        -1,
                    );
                    lemma_curves_still_reported(
                        d,
                        rd,
                        loop_sources(before[i].loops@),
                        loss_before.curves@,
                        loss.curves@,
                        -1,
                    );
                    lemma_ring_walks_still_reported(
                        d,
                        rd,
                        loop_sources(before[i].loops@),
                        loss_before.broken@,
                        loss.broken@,
                        -1,
                    );
                    lemma_lists_still_reported(
                        d,
                        face_sources(before[i].faces@),
                        2,
                        "loop"@,
                        loss_before.broken@,
                        loss.broken@,
                        -1,
                    );
                    lemma_lists_still_reported(
                        d,
                        shell_sources(before[i].shells@),
                        3,
                        "face"@,
                        loss_before.broken@,
                        loss.broken@,
                        -1,
                    );
                    lemma_lists_still_reported(
                        d,
                        lump_sources(before[i].lumps@),
                        2,
                        "shell"@,
                        loss_before.broken@,
                        loss.broken@,
                        -1,
                    );
                }
            }
            assert forall|j: int|
                0 <= j < s + 1 && (#[trigger] d[j]).kind == "body"@ implies stop_reported(
                d,
                link(d[j], 1),
                "lump"@,
                loss.broken@,
            ) by {
                if j < s {
                    lemma_stop_still_reported(d, link(d[j], 1), "lump"@, loss_before.broken@, loss.broken@);
                }
            }
            assert forall|i: int| 0 <= i < bodies@.len() implies lifted_body(
                d,
                rd,
                d[body_slots(d, s + 1)[i]],
                #[trigger] bodies@[i],
            ) by {
                if i < before.len() {
                    assert(bodies@[i] == before[i]);
                    assert(body_slots(d, s + 1)[i] == body_slots(d, s as int)[i]);
                }
            }
        }
        s = s + 1;
    }
    (bodies, loss)
}

// ---------------------------------------------------------------------------
// Laws.

proof fn lemma_all_clean(ps: Seq<Provenance>)
    requires
        forall|i: int| 0 <= i < ps.len() ==> #[trigger] ps[i] is Clean,
    ensures
        count_unclean(ps) == 0,
    decreases ps.len(),
{
    if ps.len() > 0 {
        lemma_all_clean(ps.drop_last());
    }
}

/// Every lifted node remembers where it came from: each vertex, edge,
/// coedge, loop, face, shell and lump of a lifted body is clean and names a
/// record of its own kind.
pub proof fn lemma_lifted_nodes_remember_their_records(
    d: Seq<RecordView>,
    reads: Seq<Reading>,
    source: RecordView,
    b: Body,
)
    requires
        lifted_body(d, reads, source, b),
    ensures
        forall|k: int|
            0 <= k < b.vertices@.len() ==> (#[trigger] b.vertices@[k]).provenance is Clean && names_kind(
                d,
                source_id(b.vertices@[k].provenance),
                "vertex"@,
            ),
        forall|k: int|
            0 <= k < b.edges@.len() ==> (#[trigger] b.edges@[k]).provenance is Clean && names_kind(
                d,
                source_id(b.edges@[k].provenance),
                "edge"@,
            ),
        forall|k: int|
            0 <= k < b.coedges@.len() ==> (#[trigger] b.coedges@[k]).provenance is Clean && names_kind(
                d,
                source_id(b.coedges@[k].provenance),
                "coedge"@,
            ),
        forall|k: int|
            0 <= k < b.loops@.len() ==> (#[trigger] b.loops@[k]).provenance is Clean && names_kind(
                d,
                source_id(b.loops@[k].provenance),
                "loop"@,
            ),
        forall|k: int|
            0 <= k < b.faces@.len() ==> (#[trigger] b.faces@[k]).provenance is Clean && names_kind(
                d,
                source_id(b.faces@[k].provenance),
                "face"@,
            ),
        forall|k: int|
            0 <= k < b.shells@.len() ==> (#[trigger] b.shells@[k]).provenance is Clean && names_kind(
                d,
                source_id(b.shells@[k].provenance),
                "shell"@,
            ),
        forall|k: int|
            0 <= k < b.lumps@.len() ==> (#[trigger] b.lumps@[k]).provenance is Clean && names_kind(
                d,
                source_id(b.lumps@[k].provenance),
                "lump"@,
            ),
{
    let ids = choose|ids: LiftIds| #[trigger] nodes_from(d, reads, b, ids);
    assert forall|k: int| 0 <= k < b.vertices@.len() implies (#[trigger] b.vertices@[k]).provenance is Clean
        && names_kind(d, source_id(b.vertices@[k].provenance), "vertex"@) by {
        assert(vertex_from(d, b.vertices@[k], ids.vertices[k]));
    }
    assert forall|k: int| 0 <= k < b.edges@.len() implies (#[trigger] b.edges@[k]).provenance is Clean
        && names_kind(d, source_id(b.edges@[k].provenance), "edge"@) by {
        assert(edge_from(d, reads, b, ids, k));
    }
    assert forall|k: int| 0 <= k < b.coedges@.len() implies (#[trigger] b.coedges@[k]).provenance is Clean
        && names_kind(d, source_id(b.coedges@[k].provenance), "coedge"@) by {
        assert(coedge_from(d, b, ids, k));
    }
    assert forall|k: int| 0 <= k < b.loops@.len() implies (#[trigger] b.loops@[k]).provenance is Clean
        && names_kind(d, source_id(b.loops@[k].provenance), "loop"@) by {
        assert(loop_from(d, b, k));
    }
    assert forall|k: int| 0 <= k < b.faces@.len() implies (#[trigger] b.faces@[k]).provenance is Clean
        && names_kind(d, source_id(b.faces@[k].provenance), "face"@) by {
        assert(face_from(d, b, ids, k));
    }
    assert forall|k: int| 0 <= k < b.shells@.len() implies (#[trigger] b.shells@[k]).provenance is Clean
        && names_kind(d, source_id(b.shells@[k].provenance), "shell"@) by {
        assert(shell_from(d, b, k));
    }
    assert forall|k: int| 0 <= k < b.lumps@.len() implies (#[trigger] b.lumps@[k]).provenance is Clean
        && names_kind(d, source_id(b.lumps@[k].provenance), "lump"@) by {
        assert(lump_from(d, b, k));
    }
}

/// A record named by several nodes becomes one node: no two vertices, and
/// no two edges, of a lifted body come from the same record.
pub proof fn lemma_shared_record_one_node(
    d: Seq<RecordView>,
    reads: Seq<Reading>,
    source: RecordView,
    b: Body,
)
    requires
        lifted_body(d, reads, source, b),
    ensures
        forall|i: int, j: int|
            0 <= i < j < b.vertices@.len() ==> (#[trigger] b.vertices@[i]).provenance != (
            #[trigger] b.vertices@[j]).provenance,
        forall|i: int, j: int|
            0 <= i < j < b.edges@.len() ==> (#[trigger] b.edges@[i]).provenance != (
            #[trigger] b.edges@[j]).provenance,
{
    let ids = choose|ids: LiftIds| #[trigger] nodes_from(d, reads, b, ids);
    assert forall|i: int, j: int| 0 <= i < j < b.vertices@.len() implies (
    #[trigger] b.vertices@[i]).provenance != (#[trigger] b.vertices@[j]).provenance by {
        assert(vertex_from(d, b.vertices@[i], ids.vertices[i]));
        assert(vertex_from(d, b.vertices@[j], ids.vertices[j]));
        assert(ids.vertices[i] != ids.vertices[j]);
    }
    assert forall|i: int, j: int| 0 <= i < j < b.edges@.len() implies (
    #[trigger] b.edges@[i]).provenance != (#[trigger] b.edges@[j]).provenance by {
        assert(edge_from(d, reads, b, ids, i));
        assert(edge_from(d, reads, b, ids, j));
        assert(ids.edges[i] != ids.edges[j]);
    }
}

/// A body just lifted has nothing pending, so lowering it back into any
/// document rewrites nothing and leaves that document exactly as it was.
pub proof fn lemma_lifted_lowers_unchanged(
    d: Seq<RecordView>,
    reads: Seq<Reading>,
    source: RecordView,
    b: Body,
    doc: Seq<RecordView>,
)
    requires
        lifted_body(d, reads, source, b),
    ensures
        pending_count(b) == 0,
        run_writes(doc, planned_writes(b)) == (Ok::<nat, WriteFailure>(0), doc),
{
    lemma_lifted_nodes_remember_their_records(d, reads, source, b);
    lemma_all_clean(b.faces@.map_values(|f: Face| f.provenance));
    lemma_all_clean(b.edges@.map_values(|e: Edge| e.provenance));
    lemma_all_clean(b.vertices@.map_values(|v: Vertex| v.provenance));
    lemma_untouched_lowers_byte_for_byte(b, doc);
}

/// A lifted body's topology holds together well enough to be written out
/// whole.
pub proof fn lemma_lifted_body_is_writable(
    d: Seq<RecordView>,
    reads: Seq<Reading>,
    source: RecordView,
    b: Body,
)
    requires
        lifted_body(d, reads, source, b),
    ensures
        writable_topology(b),
{
    let ids = choose|ids: LiftIds| #[trigger] nodes_from(d, reads, b, ids);
    lemma_lifted_topology_is_writable(d, reads, b, ids);
}

/// What is not lifted is not lost: when a lift reports no curve and no
/// surface, every face record its walk visited names no surface record the
/// kernel cannot read, and every edge record named by a coedge record its
/// walk visited names no such curve record.
pub proof fn lemma_empty_loss_means_nothing_unread(
    d: Seq<RecordView>,
    reads: Seq<Reading>,
    b: Body,
    loss: Loss,
)
    requires
        loss_reports(d, reads, b, loss),
        loss.surfaces@.len() == 0,
        loss.curves@.len() == 0,
    ensures
        forall|s: int, k: int|
            0 <= s < b.shells@.len() && 0 <= k < face_visits(d, source_id(b.shells@[s].provenance)).len()
                ==> !unread_surface(
                d,
                reads,
                link(named(d, #[trigger] face_visits(d, source_id(b.shells@[s].provenance))[k]), 5),
            ),
        forall|l: int, k: int|
            0 <= l < b.loops@.len() && 0 <= k < coedge_visits(
                d,
                reads,
                source_id(b.loops@[l].provenance),
            ).len() ==> {
                let edge = link(
                    named(d, #[trigger] coedge_visits(d, reads, source_id(b.loops@[l].provenance))[k]),
                    4,
                );
                names_kind(d, edge, "edge"@) ==> !unread_curve(d, reads, link(named(d, edge), 6))
            },
{
    assert forall|s: int, k: int|
        0 <= s < b.shells@.len() && 0 <= k < face_visits(d, source_id(b.shells@[s].provenance)).len()
            implies !unread_surface(
            d,
            reads,
            link(named(d, #[trigger] face_visits(d, source_id(b.shells@[s].provenance))[k]), 5),
        ) by {
        let src = shell_sources(b.shells@);
        assert(src[s] == source_id(b.shells@[s].provenance));
        assert(shell_reported(d, reads, src[s], loss.surfaces@));
        let face = face_visits(d, src[s])[k];
        assert(surface_reported(d, reads, face, loss.surfaces@));
    }
    assert forall|l: int, k: int|
        0 <= l < b.loops@.len() && 0 <= k < coedge_visits(d, reads, source_id(b.loops@[l].provenance)).len()
            implies {
        let edge = link(
            named(d, #[trigger] coedge_visits(d, reads, source_id(b.loops@[l].provenance))[k]),
            4,
        );
        names_kind(d, edge, "edge"@) ==> !unread_curve(d, reads, link(named(d, edge), 6))
    } by {
        let src = loop_sources(b.loops@);
        assert(src[l] == source_id(b.loops@[l].provenance));
        assert(ring_reported(d, reads, src[l], loss.curves@));
        let coedge = coedge_visits(d, reads, src[l])[k];
        assert(curve_reported(d, reads, coedge, loss.curves@));
    }
}


/// A document with no fault in it lifts with nothing broken: every record
/// the loss lists as broken is misplaced or cuts a ring.
pub proof fn lemma_no_fault_nothing_broken(d: Seq<RecordView>, reads: Seq<Reading>, loss: Loss)
    requires
        loss_from(d, reads, loss),
        forall|id: int| !#[trigger] fault(d, reads, id),
    ensures
        loss.broken@.len() == 0,
{
    if loss.broken@.len() > 0 {
        assert(fault(d, reads, loss.broken@[0] as int));
    }
}


/// A lift that reports nothing broken walked every ring of its body round
/// to where it started: no loop's ring was cut.
pub proof fn lemma_nothing_broken_means_rings_closed(d: Seq<RecordView>, reads: Seq<Reading>, b: Body, loss: Loss)
    requires
        loss_reports(d, reads, b, loss),
        loss.broken@.len() == 0,
    ensures
        forall|l: int|
            0 <= l < b.loops@.len() ==> {
                let first = link(named(d, source_id((#[trigger] b.loops@[l]).provenance)), 2);
                ring_cut(d, reads, first, first, 0, ring_fuel(d.len())) is None
            },
{
    assert forall|l: int| 0 <= l < b.loops@.len() implies {
        let first = link(named(d, source_id((#[trigger] b.loops@[l]).provenance)), 2);
        ring_cut(d, reads, first, first, 0, ring_fuel(d.len())) is None
    } by {
        assert(loop_sources(b.loops@)[l] == source_id(b.loops@[l].provenance));
        assert(ring_walk_reported(d, reads, loop_sources(b.loops@)[l], loss.broken@));
    }
}

} // verus!
