//! What a body written out whole gives back, node by node.
//!
//! `round_trip` shows that lifting the body record `append` wrote walks
//! exactly the records written for the body's lists. Here the nodes the walk
//! makes are held to the nodes they were written from: each coedge runs the
//! same way along the edge written for its own, each edge joins the
//! vertices written for its own at the same points along the same curve,
//! and each face lies on the same surface, facing the same way.

use vstd::prelude::*;
use super::append::{
    body_offset, coedge_tokens, face_tokens, loops_start, sense_token, coedge_ok, coedges_start, curves_start, edge_ok, edges_start, face_ok, faces_start,
    lemma_first_index, lemma_first_unwritable, loop_ok, null_token, record_total, surfaces_start,
    writable_topology,
};
use super::body::{Body, GeometryRecord};
use super::document::{tokens_view, RecordView};
use super::lift::{
    coedge_from, coedge_sources, curve_from, edge_from, holds_form, face_from, float_le, geometry_from, lifted_body,
    link, named, nodes_from, source_id, vertex_from, LiftIds, Reading,
};
use super::round_trip::{
    faces_come_back, lemma_appended_body_lifts_back, lemma_coedge_written, lemma_edge_written,
    lemma_face_written, lemma_listed_member, lemma_vertex_written, lemma_written_record_named,
    lists_hold, loops_come_back, round_trip_premises, with_appended, ids_below_end,
    geometry_readable,
};

verus! {

/// Whether two curves or surfaces hold the same record form.
pub open spec fn same_form(a: Option<GeometryRecord>, b: Option<GeometryRecord>) -> bool {
    match (a, b) {
        (Some(x), Some(y)) => x.kind@ == y.kind@ && tokens_view(x.tokens@) == tokens_view(y.tokens@),
        _ => false,
    }
}

/// Whether two points have the same coordinate bits.
pub open spec fn same_point(a: [u64; 3], b: [u64; 3]) -> bool {
    a[0] == b[0] && a[1] == b[1] && a[2] == b[2]
}

/// Each lifted coedge came from the record written for a coedge of `b`,
/// runs the same way, and runs along the edge lifted from the record written
/// for that coedge's edge.
pub open spec fn coedges_come_back(old: Seq<RecordView>, b: Body, lifted: Body) -> bool {
    forall|c: int|
        0 <= c < lifted.coedges@.len() ==> {
            let co = #[trigger] lifted.coedges@[c];
            let k = source_id(co.provenance) - old.len() - coedges_start(b);
            &&& 0 <= k < b.coedges@.len()
            &&& co.forward == b.coedges@[k].forward
            &&& co.edge < lifted.edges@.len()
            &&& source_id(lifted.edges@[co.edge as int].provenance) == old.len() + edges_start(b)
                + b.coedges@[k].edge
        }
}

/// Each edge lifted from the record written for an edge of `b` joins the
/// vertices lifted from the records written for that edge's vertices, at
/// the same points, along the same curve; it runs from the smaller of the
/// two parameters to the larger, so its ends swap when the written edge's
/// parameters were not in order.
pub open spec fn edges_come_back(old: Seq<RecordView>, b: Body, lifted: Body) -> bool {
    forall|e: int|
        0 <= e < lifted.edges@.len() ==> {
            let edge = #[trigger] lifted.edges@[e];
            let k = source_id(edge.provenance) - old.len() - edges_start(b);
            0 <= k < b.edges@.len() ==> {
                let o = b.edges@[k];
                let ordered = float_le(o.start_parameter, o.end_parameter);
                let s = if ordered { o.start } else { o.end };
                let t = if ordered { o.end } else { o.start };
                &&& edge.start < lifted.vertices@.len()
                &&& edge.end < lifted.vertices@.len()
                &&& source_id(lifted.vertices@[edge.start as int].provenance) == old.len() + 2 * s + 1
                &&& source_id(lifted.vertices@[edge.end as int].provenance) == old.len() + 2 * t + 1
                &&& same_point(lifted.vertices@[edge.start as int].point, b.vertices@[s as int].point)
                &&& same_point(lifted.vertices@[edge.end as int].point, b.vertices@[t as int].point)
                &&& edge.start_parameter == (if ordered { o.start_parameter } else { o.end_parameter })
                &&& edge.end_parameter == (if ordered { o.end_parameter } else { o.start_parameter })
                &&& edge.curve < lifted.curves@.len()
                &&& same_form(lifted.curves@[edge.curve as int], b.curves@[o.curve as int])
            }
        }
}

/// Whether the kernel, where it places an edge written for `b`, places it at
/// the parameters it was written with.
pub open spec fn placements_agree(old: Seq<RecordView>, b: Body, reads: Seq<Reading>) -> bool {
    forall|e: int|
        0 <= e < b.edges@.len() && old.len() + edges_start(b) + e < reads.len() ==> (#[trigger] reads[old.len()
            + edges_start(b) + e]).placed is None || reads[old.len() + edges_start(b) + e].placed == Some(
            (b.edges@[e].start_parameter, b.edges@[e].end_parameter),
        )
}

/// Each lifted face faces the same way as the face of `b` it was written
/// for, on the same surface.
pub open spec fn faces_keep_their_surfaces(old: Seq<RecordView>, b: Body, lifted: Body) -> bool {
    forall|f: int|
        0 <= f < lifted.faces@.len() ==> {
            let face = #[trigger] lifted.faces@[f];
            let k = source_id(face.provenance) - old.len() - faces_start(b);
            &&& 0 <= k < b.faces@.len()
            &&& face.forward == b.faces@[k].forward
            &&& face.surface < lifted.surfaces@.len()
            &&& same_form(lifted.surfaces@[face.surface as int], b.surfaces@[b.faces@[k].surface as int])
        }
}

/// The curve or surface record written at `i`, read back by the lift,
/// holds the same form as the one it was written for.
#[verifier::rlimit(50)]
proof fn lemma_geometry_comes_back(
    old: Seq<RecordView>,
    b: Body,
    reads: Seq<Reading>,
    g: Option<GeometryRecord>,
    i: int,
)
    requires
        lists_hold(b),
        ids_below_end(old),
        old.len() + record_total(b) <= i32::MAX,
        curves_start(b) <= i < edges_start(b),
        holds_form(g, named(with_appended(old, b), old.len() + i)),
    ensures
        same_form(
            g,
            if i < surfaces_start(b) {
                b.curves@[i - curves_start(b)]
            } else {
                b.surfaces@[i - surfaces_start(b)]
            },
        ),
{
    let d = with_appended(old, b);
    lemma_written_record_named(old, b, i);
    let o = if i < surfaces_start(b) {
        b.curves@[i - curves_start(b)]
    } else {
        b.surfaces@[i - surfaces_start(b)]
    };
    lemma_first_unwritable(b.curves@);
    lemma_first_unwritable(b.surfaces@);
    assert(o is Some);
    let r = named(d, old.len() + i);
    assert(r.tokens == seq![null_token()] + tokens_view(o->0.tokens@));
    assert(r.tokens.subrange(1, r.tokens.len() as int) =~= tokens_view(o->0.tokens@));
}

/// The records written for an edge come back as the edge, its vertices,
/// their points and its curve.
#[verifier::rlimit(100)]
proof fn lemma_edges_come_back(old: Seq<RecordView>, b: Body, reads: Seq<Reading>, lifted: Body)
    requires
        round_trip_premises(old, b, reads, lifted),
        placements_agree(old, b, reads),
    ensures
        edges_come_back(old, b, lifted),
{
    let d = with_appended(old, b);
    let base = old.len() as int;
    let ids = choose|ids: LiftIds| nodes_from(d, reads, lifted, ids);
    assert(nodes_from(d, reads, lifted, ids));
    assert(writable_topology(b));
    assert forall|e: int| 0 <= e < lifted.edges@.len() implies {
        let edge = #[trigger] lifted.edges@[e];
        let k = source_id(edge.provenance) - old.len() - edges_start(b);
        0 <= k < b.edges@.len() ==> {
            let o = b.edges@[k];
            let ordered = float_le(o.start_parameter, o.end_parameter);
            let s = if ordered { o.start } else { o.end };
            let t = if ordered { o.end } else { o.start };
            &&& edge.start < lifted.vertices@.len()
            &&& edge.end < lifted.vertices@.len()
            &&& source_id(lifted.vertices@[edge.start as int].provenance) == old.len() + 2 * s + 1
            &&& source_id(lifted.vertices@[edge.end as int].provenance) == old.len() + 2 * t + 1
            &&& same_point(lifted.vertices@[edge.start as int].point, b.vertices@[s as int].point)
            &&& same_point(lifted.vertices@[edge.end as int].point, b.vertices@[t as int].point)
            &&& edge.start_parameter == (if ordered { o.start_parameter } else { o.end_parameter })
            &&& edge.end_parameter == (if ordered { o.end_parameter } else { o.start_parameter })
            &&& edge.curve < lifted.curves@.len()
            &&& same_form(lifted.curves@[edge.curve as int], b.curves@[o.curve as int])
        }
    } by {
        let edge = lifted.edges@[e];
        let k = source_id(edge.provenance) - old.len() - edges_start(b);
        if 0 <= k < b.edges@.len() {
            assert(edge_from(d, reads, lifted, ids, e));
            let o = b.edges@[k];
            assert(edge_ok(b, k));
            lemma_edge_written(old, b, k);
            lemma_written_record_named(old, b, edges_start(b) + k);
            let ordered = float_le(o.start_parameter, o.end_parameter);
            let s = if ordered { o.start } else { o.end };
            let t = if ordered { o.end } else { o.start };
            lemma_vertex_written(old, b, s as int);
            lemma_vertex_written(old, b, t as int);
            assert(vertex_from(d, lifted.vertices@[edge.start as int], ids.vertices[edge.start as int]));
            assert(vertex_from(d, lifted.vertices@[edge.end as int], ids.vertices[edge.end as int]));
            assert(curve_from(d, lifted.curves@[edge.curve as int], ids.curves[edge.curve as int]));
            lemma_geometry_comes_back(
                old,
                b,
                reads,
                lifted.curves@[edge.curve as int],
                curves_start(b) + o.curve,
            );
        }
    }
}

/// Each lifted coedge is the one written for a coedge of `b`.
#[verifier::rlimit(100)]
proof fn lemma_coedges_come_back(old: Seq<RecordView>, b: Body, reads: Seq<Reading>, lifted: Body)
    requires
        round_trip_premises(old, b, reads, lifted),
        loops_come_back(old, b, lifted),
    ensures
        coedges_come_back(old, b, lifted),
{
    let d = with_appended(old, b);
    let base = old.len() as int;
    let ids = choose|ids: LiftIds| nodes_from(d, reads, lifted, ids);
    assert(nodes_from(d, reads, lifted, ids));
    assert(writable_topology(b));
    reveal_strlit("forward");
    reveal_strlit("reversed");
    assert forall|c: int| 0 <= c < lifted.coedges@.len() implies {
        let co = #[trigger] lifted.coedges@[c];
        let k = source_id(co.provenance) - old.len() - coedges_start(b);
        &&& 0 <= k < b.coedges@.len()
        &&& co.forward == b.coedges@[k].forward
        &&& co.edge < lifted.edges@.len()
        &&& source_id(lifted.edges@[co.edge as int].provenance) == old.len() + edges_start(b)
            + b.coedges@[k].edge
    } by {
        let co = lifted.coedges@[c];
        assert(lifted.coedges@.len() == lifted.coedges.len());
        assert(coedge_from(d, lifted, ids, c));
        let l = co.owner as int;
        let ring = lifted.loops@[l];
        let kl = source_id(ring.provenance) - base - loops_start(b);
        assert(0 <= kl < b.loops@.len());
        let j = lemma_listed_member(
            coedge_sources(lifted.coedges@),
            ring.coedges@,
            b.loops@[kl].coedges@,
            base + coedges_start(b),
            c,
        );
        assert(coedge_sources(lifted.coedges@)[c] == source_id(co.provenance));
        assert(loop_ok(b, kl));
        let k = b.loops@[kl].coedges@[j] as int;
        assert(k < b.coedges@.len());
        assert(b.coedges@[k].owner == kl);
        assert(coedge_ok(b, k));
        lemma_coedge_written(old, b, k);
        lemma_first_index(b.loops@[kl].coedges@, k as usize);
        assert(source_id(co.provenance) == base + coedges_start(b) + k);
        let r = named(d, source_id(co.provenance));
        assert(r.tokens == coedge_tokens(b, base, k));
        assert(r.tokens[5] == sense_token(b.coedges@[k].forward));
        reveal_strlit("forward");
        reveal_strlit("reversed");
        assert("forward"@.len() == 7 && "reversed"@.len() == 8);
        assert(co.forward == b.coedges@[k].forward);
        assert(link(r, 4) == base + edges_start(b) + b.coedges@[k].edge);
        assert(edge_from(d, reads, lifted, ids, co.edge as int));
    }
}

/// Each lifted face is the one written for a face of `b`, on the same
/// surface.
#[verifier::rlimit(100)]
proof fn lemma_faces_keep_their_surfaces(old: Seq<RecordView>, b: Body, reads: Seq<Reading>, lifted: Body)
    requires
        round_trip_premises(old, b, reads, lifted),
        faces_come_back(old, b, lifted),
    ensures
        faces_keep_their_surfaces(old, b, lifted),
{
    let d = with_appended(old, b);
    let base = old.len() as int;
    let ids = choose|ids: LiftIds| nodes_from(d, reads, lifted, ids);
    assert(nodes_from(d, reads, lifted, ids));
    assert(writable_topology(b));
    reveal_strlit("forward");
    reveal_strlit("reversed");
    assert forall|f: int| 0 <= f < lifted.faces@.len() implies {
        let face = #[trigger] lifted.faces@[f];
        let k = source_id(face.provenance) - old.len() - faces_start(b);
        &&& 0 <= k < b.faces@.len()
        &&& face.forward == b.faces@[k].forward
        &&& face.surface < lifted.surfaces@.len()
        &&& same_form(lifted.surfaces@[face.surface as int], b.surfaces@[b.faces@[k].surface as int])
    } by {
        let face = lifted.faces@[f];
        let k = source_id(face.provenance) - base - faces_start(b);
        assert(0 <= k < b.faces@.len());
        assert(face_from(d, lifted, ids, f));
        assert(face_ok(b, k));
        lemma_face_written(old, b, k);
        let r = named(d, source_id(face.provenance));
        assert(source_id(face.provenance) == base + faces_start(b) + k);
        assert(r.tokens == face_tokens(b, base, k));
        assert(r.tokens[6] == sense_token(b.faces@[k].forward));
        reveal_strlit("forward");
        reveal_strlit("reversed");
        assert("forward"@.len() == 7 && "reversed"@.len() == 8);
        assert(face.forward == b.faces@[k].forward);
        assert(link(r, 5) == base + surfaces_start(b) + b.faces@[k].surface);
        assert(ids.surfaces[face.surface as int] == base + surfaces_start(b) + b.faces@[k].surface);
        assert(geometry_from(d, reads, lifted.surfaces@[face.surface as int], ids.surfaces[face.surface as int]));
        lemma_geometry_comes_back(
            old,
            b,
            reads,
            lifted.surfaces@[face.surface as int],
            surfaces_start(b) + b.faces@[k].surface,
        );
    }
}

/// A body written out whole comes back node by node: under the premises of
/// the list-level round trip, and where the kernel places an edge written
/// for it at the parameters it was written with, each lifted coedge runs the same way as the
/// coedge it was written for and along the edge written for that coedge's
/// edge; each such edge joins the vertices written for that edge's own, at
/// the same points and along the same curve (its two ends taken in the order
/// of its parameters); and each lifted face faces the same way, on the same
/// surface, as the face it was written for.
pub proof fn lemma_appended_nodes_lift_back(old: Seq<RecordView>, b: Body, reads: Seq<Reading>, lifted: Body)
    requires
        lists_hold(b),
        ids_below_end(old),
        old.len() + record_total(b) <= i32::MAX,
        geometry_readable(old, b, reads),
        placements_agree(old, b, reads),
        lifted_body(
            with_appended(old, b),
            reads,
            with_appended(old, b)[old.len() + body_offset(b)],
            lifted,
        ),
    ensures
        coedges_come_back(old, b, lifted),
        edges_come_back(old, b, lifted),
        faces_keep_their_surfaces(old, b, lifted),
{
    lemma_appended_body_lifts_back(old, b, reads, lifted);
    lemma_coedges_come_back(old, b, reads, lifted);
    lemma_edges_come_back(old, b, reads, lifted);
    lemma_faces_keep_their_surfaces(old, b, reads, lifted);
}

} // verus!
