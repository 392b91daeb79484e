//! What a save writes for an edited vertex, a later lift reads back.
//!
//! `lower` rewrites the point record an edited vertex's record points at.
//! The writes for vertices come after those for faces and edges, and each
//! only ever replaces the tokens of a `point` record, so it leaves every
//! vertex record, and with it every vertex's way to its point, as it was.
//! The point an edited vertex was given is therefore what the document
//! holds for it afterwards, unless a vertex written after it shares its
//! point record.

use vstd::prelude::*;
use super::body::{Body, Provenance};
use super::relift::same_point;
use super::document::{first_slot, lemma_first_slot, pointer_field, RecordView, TokenView, NULL};
use super::lift::{lifted_body, nodes_from, source_id, vertex_from, vertex_point, LiftIds, Reading};
use super::lower::{
    apply_write, edge_writes, face_writes, geometry_slot_of, planned_writes, run_writes,
    vertex_write, vertex_writes, GeometryWrite, WriteFailure,
};

verus! {

/// The record id an edited node names, or zero for any other.
pub open spec fn edited_source(p: Provenance) -> u32 {
    match p {
        Provenance::Dirty(x) => x,
        _ => 0,
    }
}

/// The slot of the point record the vertex record with id `source` points
/// at, or why there is none.
pub open spec fn point_slot(d: Seq<RecordView>, source: u32) -> Result<int, WriteFailure> {
    geometry_slot_of(d, source, "vertex"@, 2)
}

/// Two documents whose records have the same ids in the same places find
/// the same record for every id.
proof fn lemma_same_ids_same_slots(a: Seq<RecordView>, b: Seq<RecordView>, id: i32)
    requires
        a.len() == b.len(),
        forall|i: int| 0 <= i < a.len() ==> (#[trigger] a[i]).index == b[i].index,
    ensures
        first_slot(a, id) == first_slot(b, id),
{
    lemma_first_slot(a, id);
    lemma_first_slot(b, id);
    match (first_slot(a, id), first_slot(b, id)) {
        (Some(x), Some(y)) => {
            if x < y {
                assert(b[x].index == a[x].index);
            } else if y < x {
                assert(a[y].index == b[y].index);
            }
        },
        (Some(x), None) => {
            assert(b[x].index == a[x].index);
        },
        (None, Some(y)) => {
            assert(a[y].index == b[y].index);
        },
        (None, None) => {},
    }
}

/// Whether a write puts a point through a vertex record.
pub open spec fn is_point_write(w: GeometryWrite) -> bool {
    &&& w.owner_kind == "vertex"@
    &&& w.field == 2
    &&& w.form matches Some((kind, tokens)) && kind == "point"@ && tokens.len() == 1
        && tokens[0] is Position
}

/// A point write that succeeds replaces the tokens of the one point record
/// its vertex record points at, and touches nothing else.
proof fn lemma_point_write(d: Seq<RecordView>, w: GeometryWrite)
    requires
        is_point_write(w),
        apply_write(d, w) is Ok,
    ensures
        ({
            let d2 = apply_write(d, w)->Ok_0;
            let at = point_slot(d, w.source)->Ok_0;
            &&& point_slot(d, w.source) is Ok
            &&& 0 <= at < d.len()
            &&& d[at].kind == "point"@
            &&& d2.len() == d.len()
            &&& d2[at] == RecordView {
                tokens: seq![TokenView::Pointer(NULL)] + w.form->Some_0.1,
                ..d[at]
            }
            &&& forall|i: int| 0 <= i < d.len() && i != at ==> #[trigger] d2[i] == d[i]
        }),
{
    lemma_first_slot(d, w.source as i32);
    if let Some(node) = first_slot(d, w.source as i32) {
        lemma_first_slot(d, pointer_field(d[node], w.field));
    }
}

/// A point write that succeeds leaves every vertex record's way to its
/// point as it was, and every vertex's point but those whose point record
/// it rewrote.
proof fn lemma_point_write_keeps_others(d: Seq<RecordView>, w: GeometryWrite, s: u32)
    requires
        is_point_write(w),
        apply_write(d, w) is Ok,
    ensures
        point_slot(apply_write(d, w)->Ok_0, s) == point_slot(d, s),
        (s <= i32::MAX && (point_slot(d, s) matches Ok(x) && x != point_slot(d, w.source)->Ok_0)) ==> vertex_point(
            apply_write(d, w)->Ok_0,
            s as int,
        ) == vertex_point(d, s as int),
{
    let d2 = apply_write(d, w)->Ok_0;
    lemma_point_write(d, w);
    let at = point_slot(d, w.source)->Ok_0;
    reveal_strlit("vertex");
    reveal_strlit("point");
    assert("vertex"@.len() == 6 && "point"@.len() == 5);
    assert forall|i: int| 0 <= i < d.len() implies (#[trigger] d[i]).index == d2[i].index by {
        if i != at {
            assert(d2[i] == d[i]);
        }
    }
    lemma_same_ids_same_slots(d, d2, s as i32);
    lemma_first_slot(d, s as i32);
    if let Some(node) = first_slot(d, s as i32) {
        if d[node].kind == "vertex"@ {
            assert(node != at);
            assert(d2[node] == d[node]);
            let p = pointer_field(d[node], 2);
            lemma_same_ids_same_slots(d, d2, p);
            lemma_first_slot(d, p);
        } else {
            assert(d2[node].kind == d[node].kind);
        }
    }
}

/// A point write that succeeds is read back through its vertex record.
proof fn lemma_point_write_reads_back(d: Seq<RecordView>, w: GeometryWrite)
    requires
        is_point_write(w),
        apply_write(d, w) is Ok,
        w.source <= i32::MAX,
    ensures
        vertex_point(apply_write(d, w)->Ok_0, w.source as int) == (match w.form->Some_0.1[0] {
            TokenView::Position(x, y, z) => Some((x, y, z)),
            _ => None,
        }),
{
    let d2 = apply_write(d, w)->Ok_0;
    lemma_point_write(d, w);
    lemma_point_write_keeps_others(d, w, w.source);
    let at = point_slot(d, w.source)->Ok_0;
    reveal_strlit("vertex");
    reveal_strlit("point");
    assert("vertex"@.len() == 6 && "point"@.len() == 5);
    assert forall|i: int| 0 <= i < d.len() implies (#[trigger] d[i]).index == d2[i].index by {
        if i != at {
            assert(d2[i] == d[i]);
        }
    }
    lemma_same_ids_same_slots(d, d2, w.source as i32);
    lemma_first_slot(d, w.source as i32);
    let node = first_slot(d, w.source as i32)->Some_0;
    assert(node != at);
    assert(d2[node] == d[node]);
    let p = pointer_field(d[node], 2);
    lemma_same_ids_same_slots(d, d2, p);
    assert(d2[at].tokens[1] == w.form->Some_0.1[0]);
}

/// A vertex whose point is found has a point record to write through.
proof fn lemma_found_point_has_slot(d: Seq<RecordView>, s: u32)
    requires
        s <= i32::MAX,
        vertex_point(d, s as int) is Some,
    ensures
        point_slot(d, s) is Ok,
{
    lemma_first_slot(d, s as i32);
}

/// The writes a save makes before those for the vertices.
pub open spec fn writes_before_vertices(body: Body) -> Seq<GeometryWrite> {
    face_writes(body.faces@, body.surfaces@) + edge_writes(body.edges@, body.curves@)
}

/// The writes a save makes up to those for the first `k` vertices.
pub open spec fn writes_through(body: Body, k: int) -> Seq<GeometryWrite> {
    writes_before_vertices(body) + vertex_writes(body.vertices@.take(k))
}

/// The point of an edited vertex is read back once the writes for the
/// vertices up to `k` are made, unless one made after its own shares its
/// point record.
proof fn lemma_reads_back_through(doc: Seq<RecordView>, body: Body, v: int, k: int)
    requires
        0 <= v < k <= body.vertices@.len(),
        body.vertices@[v].provenance is Dirty,
        edited_source(body.vertices@[v].provenance) <= i32::MAX,
        run_writes(doc, writes_through(body, k)).0 is Ok,
        forall|w: int|
            v < w < k && (#[trigger] body.vertices@[w]).provenance is Dirty ==> point_slot(
                run_writes(doc, writes_through(body, k)).1,
                edited_source(body.vertices@[w].provenance),
            ) != point_slot(
                run_writes(doc, writes_through(body, k)).1,
                edited_source(body.vertices@[v].provenance),
            ),
    ensures
        ({
            let p = body.vertices@[v].point;
            vertex_point(
                run_writes(doc, writes_through(body, k)).1,
                edited_source(body.vertices@[v].provenance) as int,
            ) == Some((p[0], p[1], p[2]))
        }),
    decreases k,
{
    let vs = body.vertices@;
    let sv = edited_source(vs[v].provenance);
    assert(vs.take(k).drop_last() =~= vs.take(k - 1));
    assert(vs.take(k).last() == vs[k - 1]);
    let prev = writes_through(body, k - 1);
    let d = run_writes(doc, prev).1;
    let last = vs[k - 1];
    if last.provenance is Dirty {
        let w = vertex_write(last, edited_source(last.provenance));
        assert(vertex_writes(vs.take(k)) == vertex_writes(vs.take(k - 1)).push(w));
        assert(writes_through(body, k) =~= prev.push(w));
        assert(writes_through(body, k).drop_last() =~= prev);
        assert(run_writes(doc, prev).0 is Ok);
        assert(apply_write(d, w) is Ok);
        assert(is_point_write(w));
        let f = apply_write(d, w)->Ok_0;
        assert(run_writes(doc, writes_through(body, k)).1 == f);
        if k - 1 == v {
            lemma_point_write_reads_back(d, w);
        } else {
            lemma_point_write(d, w);
            lemma_point_write_keeps_others(d, w, sv);
            assert forall|x: int|
                v < x < k - 1 && (#[trigger] vs[x]).provenance is Dirty implies point_slot(
                    d,
                    edited_source(vs[x].provenance),
                ) != point_slot(d, sv) by {
                lemma_point_write_keeps_others(d, w, edited_source(vs[x].provenance));
            }
            lemma_reads_back_through(doc, body, v, k - 1);
            lemma_found_point_has_slot(d, sv);
            assert(point_slot(f, edited_source(last.provenance)) != point_slot(f, sv));
            lemma_point_write_keeps_others(d, w, edited_source(last.provenance));
        }
    } else {
        assert(vertex_writes(vs.take(k)) == vertex_writes(vs.take(k - 1)));
        assert(writes_through(body, k) =~= prev);
        lemma_reads_back_through(doc, body, v, k - 1);
    }
}

/// A moved corner comes back where it was put: when a save succeeds, the
/// document afterwards holds, for each edited vertex whose record id fits a
/// record pointer, the point it was given, unless a vertex written after it
/// shares its point record; and every vertex a lift of that document makes
/// from the vertex's record stands at that point.
pub proof fn lemma_moved_corner_comes_back(
    doc: Seq<RecordView>,
    body: Body,
    v: int,
    reads: Seq<Reading>,
    source: RecordView,
    lifted: Body,
)
    requires
        0 <= v < body.vertices@.len(),
        body.vertices@[v].provenance is Dirty,
        edited_source(body.vertices@[v].provenance) <= i32::MAX,
        run_writes(doc, planned_writes(body)).0 is Ok,
        forall|w: int|
            v < w < body.vertices@.len() && (#[trigger] body.vertices@[w]).provenance is Dirty
                ==> point_slot(
                run_writes(doc, planned_writes(body)).1,
                edited_source(body.vertices@[w].provenance),
            ) != point_slot(
                run_writes(doc, planned_writes(body)).1,
                edited_source(body.vertices@[v].provenance),
            ),
    ensures
        ({
            let p = body.vertices@[v].point;
            vertex_point(
                run_writes(doc, planned_writes(body)).1,
                edited_source(body.vertices@[v].provenance) as int,
            ) == Some((p[0], p[1], p[2]))
        }),
        lifted_body(run_writes(doc, planned_writes(body)).1, reads, source, lifted) ==> forall|k: int|
            0 <= k < lifted.vertices@.len() && source_id((#[trigger] lifted.vertices@[k]).provenance)
                == edited_source(body.vertices@[v].provenance) ==> same_point(
                lifted.vertices@[k].point,
                body.vertices@[v].point,
            ),
{
    let n = body.vertices@.len() as int;
    let f = run_writes(doc, planned_writes(body)).1;
    assert(body.vertices@.take(n) =~= body.vertices@);
    assert(writes_through(body, n) == planned_writes(body));
    lemma_reads_back_through(doc, body, v, n);
    if lifted_body(f, reads, source, lifted) {
        let ids = choose|ids: LiftIds| nodes_from(f, reads, lifted, ids);
        assert(nodes_from(f, reads, lifted, ids));
        assert forall|k: int|
            0 <= k < lifted.vertices@.len() && source_id((#[trigger] lifted.vertices@[k]).provenance)
                == edited_source(body.vertices@[v].provenance) implies same_point(
            lifted.vertices@[k].point,
            body.vertices@[v].point,
        ) by {
            assert(vertex_from(f, lifted.vertices@[k], ids.vertices[k]));
        }
    }
}

} // verus!
