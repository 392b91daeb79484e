//! Writing an edited topology back into the document it was lifted from.
//!
//! A clean node is left as its source record. A dirty node has its geometry
//! rewritten: a face's surface, an edge's curve, a vertex's point. The
//! geometry lives in the record the node's record *points at*, so the write
//! goes through that pointer, and it checks that the record found there is
//! of the kind about to be written. A synthesized node has no record to write
//! through and is skipped.

use vstd::prelude::*;
use super::body::{Body, Edge, Face, GeometryRecord, Provenance, Vertex};
use super::document::{
    duplicate_tokens, first_slot, lemma_first_slot, pointer_field, same_text, tokens_view,
    RecordView, SatDocument, SatToken, TokenView, NULL,
};

verus! {

/// Why a body could not be written back.
#[derive(Debug, Clone, PartialEq, Eq)]
pub enum Unwritable {
    /// A node was edited but names a source record that is no longer there.
    MissingSource(u32),
    /// A surface was edited and has no record form here.
    Surface,
    /// A curve was edited and has no record form here.
    Curve,
    /// The pointer walk landed on a record of the wrong kind.
    WrongRecord {
        /// What the record actually is.
        found: String,
        /// What was about to be written into it.
        expected: String,
    },
}

/// A failure, as a value.
pub enum WriteFailure {
    MissingSource(u32),
    Surface,
    Curve,
    WrongRecord(Seq<char>, Seq<char>),
}

pub open spec fn failure_of(e: Unwritable) -> WriteFailure {
    match e {
        Unwritable::MissingSource(s) => WriteFailure::MissingSource(s),
        Unwritable::Surface => WriteFailure::Surface,
        Unwritable::Curve => WriteFailure::Curve,
        Unwritable::WrongRecord { found, expected } => WriteFailure::WrongRecord(found@, expected@),
    }
}

/// One geometry rewrite a dirty node asks for.
pub struct GeometryWrite {
    /// The id of the node's own record.
    pub source: u32,
    /// The entity type of the node's own record.
    pub owner_kind: Seq<char>,
    /// The token of the node's record that points at its geometry.
    pub field: int,
    /// The geometry to write, its kind and tokens, if it has a record form.
    pub form: Option<(Seq<char>, Seq<TokenView>)>,
    /// The failure when it has none.
    pub unwritable: WriteFailure,
}

/// The record form of an optional geometry, as values.
pub open spec fn form_view(g: Option<GeometryRecord>) -> Option<(Seq<char>, Seq<TokenView>)> {
    match g {
        Some(record) => Some((record.kind@, tokens_view(record.tokens@))),
        None => None,
    }
}

/// The geometry at position `i` of an arena, if there is one and it has a
/// record form.
pub open spec fn geometry_at(arena: Seq<Option<GeometryRecord>>, i: int) -> Option<
    (Seq<char>, Seq<TokenView>),
> {
    if 0 <= i < arena.len() {
        form_view(arena[i])
    } else {
        None
    }
}

pub open spec fn face_write(face: Face, source: u32, surfaces: Seq<Option<GeometryRecord>>) -> GeometryWrite {
    GeometryWrite {
        source,
        owner_kind: "face"@,
        field: 5,
        form: geometry_at(surfaces, face.surface as int),
        unwritable: WriteFailure::Surface,
    }
}

pub open spec fn edge_write(edge: Edge, source: u32, curves: Seq<Option<GeometryRecord>>) -> GeometryWrite {
    GeometryWrite {
        source,
        owner_kind: "edge"@,
        field: 6,
        form: geometry_at(curves, edge.curve as int),
        unwritable: WriteFailure::Curve,
    }
}

pub open spec fn vertex_write(vertex: Vertex, source: u32) -> GeometryWrite {
    GeometryWrite {
        source,
        owner_kind: "vertex"@,
        field: 2,
        form: Some(
            (
                "point"@,
                seq![TokenView::Position(vertex.point[0], vertex.point[1], vertex.point[2])],
            ),
        ),
        unwritable: WriteFailure::MissingSource(source),
    }
}

/// The writes the dirty faces ask for, in arena order.
pub open spec fn face_writes(faces: Seq<Face>, surfaces: Seq<Option<GeometryRecord>>) -> Seq<
    GeometryWrite,
>
    decreases faces.len(),
{
    if faces.len() == 0 {
        seq![]
    } else {
        let rest = face_writes(faces.drop_last(), surfaces);
        match faces.last().provenance {
            Provenance::Dirty(source) => rest.push(face_write(faces.last(), source, surfaces)),
            _ => rest,
        }
    }
}

/// The writes the dirty edges ask for, in arena order.
pub open spec fn edge_writes(edges: Seq<Edge>, curves: Seq<Option<GeometryRecord>>) -> Seq<
    GeometryWrite,
>
    decreases edges.len(),
{
    if edges.len() == 0 {
        seq![]
    } else {
        let rest = edge_writes(edges.drop_last(), curves);
        match edges.last().provenance {
            Provenance::Dirty(source) => rest.push(edge_write(edges.last(), source, curves)),
            _ => rest,
        }
    }
}

/// The writes the dirty vertices ask for, in arena order.
pub open spec fn vertex_writes(vertices: Seq<Vertex>) -> Seq<GeometryWrite>
    decreases vertices.len(),
{
    if vertices.len() == 0 {
        seq![]
    } else {
        let rest = vertex_writes(vertices.drop_last());
        match vertices.last().provenance {
            Provenance::Dirty(source) => rest.push(vertex_write(vertices.last(), source)),
            _ => rest,
        }
    }
}

/// Every write a body asks for: faces, then edges, then vertices.
pub open spec fn planned_writes(body: Body) -> Seq<GeometryWrite> {
    face_writes(body.faces@, body.surfaces@) + edge_writes(body.edges@, body.curves@)
        + vertex_writes(body.vertices@)
}

/// The array position of the geometry record a node's geometry pointer
/// names: the node's record is found by id and must be of the node's kind,
/// its pointer must not be null, and the record it names must be there.
pub open spec fn geometry_slot_of(
    doc: Seq<RecordView>,
    source: u32,
    owner_kind: Seq<char>,
    field: int,
) -> Result<int, WriteFailure> {
    match first_slot(doc, source as i32) {
        None => Err(WriteFailure::MissingSource(source)),
        Some(node) => if doc[node].kind != owner_kind {
            Err(WriteFailure::MissingSource(source))
        } else {
            let pointer = pointer_field(doc[node], field);
            if pointer < 0 {
                Err(WriteFailure::MissingSource(source))
            } else {
                match first_slot(doc, pointer) {
                    None => Err(WriteFailure::MissingSource(source)),
                    Some(slot) => Ok(slot),
                }
            }
        },
    }
}

/// A geometry written through a node: the node's geometry record gets a
/// null attribute pointer followed by the geometry's tokens, provided that
/// record is of the geometry's kind.
pub open spec fn apply_form(
    doc: Seq<RecordView>,
    source: u32,
    owner_kind: Seq<char>,
    field: int,
    kind: Seq<char>,
    tokens: Seq<TokenView>,
) -> Result<Seq<RecordView>, WriteFailure> {
    match geometry_slot_of(doc, source, owner_kind, field) {
        Err(e) => Err(e),
        Ok(at) => if doc[at].kind != kind {
            Err(WriteFailure::WrongRecord(doc[at].kind, kind))
        } else {
            Ok(
                doc.update(
                    at,
                    RecordView { tokens: seq![TokenView::Pointer(NULL)] + tokens, ..doc[at] },
                ),
            )
        },
    }
}

/// One write applied: it fails when the geometry has no record form.
pub open spec fn apply_write(doc: Seq<RecordView>, w: GeometryWrite) -> Result<
    Seq<RecordView>,
    WriteFailure,
> {
    match w.form {
        None => Err(w.unwritable),
        Some((kind, tokens)) => apply_form(doc, w.source, w.owner_kind, w.field, kind, tokens),
    }
}

/// The writes applied in order, stopping at the first failure: how many
/// succeeded or why one failed, and the document as it stands afterwards.
pub open spec fn run_writes(doc: Seq<RecordView>, writes: Seq<GeometryWrite>) -> (
    Result<nat, WriteFailure>,
    Seq<RecordView>,
)
    decreases writes.len(),
{
    if writes.len() == 0 {
        (Ok(0), doc)
    } else {
        let (r, d) = run_writes(doc, writes.drop_last());
        match r {
            Err(e) => (Err(e), d),
            Ok(n) => match apply_write(d, writes.last()) {
                Err(e) => (Err(e), d),
                Ok(d2) => (Ok(n + 1), d2),
            },
        }
    }
}

/// How many faces, edges and vertices are not clean.
pub open spec fn count_unclean(provenances: Seq<Provenance>) -> nat
    decreases provenances.len(),
{
    if provenances.len() == 0 {
        0
    } else {
        count_unclean(provenances.drop_last()) + if provenances.last() is Clean {
            0nat
        } else {
            1nat
        }
    }
}

pub open spec fn pending_count(body: Body) -> nat {
    count_unclean(body.faces@.map_values(|f: Face| f.provenance)) + count_unclean(
        body.edges@.map_values(|e: Edge| e.provenance),
    ) + count_unclean(body.vertices@.map_values(|v: Vertex| v.provenance))
}

/// The array position of a node's geometry record.
fn geometry_slot(document: &SatDocument, source: u32, owner_kind: &str, field: usize) -> (r: Result<
    usize,
    Unwritable,
>)
    ensures
        match (r, geometry_slot_of(document@, source, owner_kind@, field as int)) {
            (Ok(a), Ok(b)) => a == b,
            (Err(e), Err(f)) => failure_of(e) == f,
            _ => false,
        },
{
    let node = match document.slot_of(source as i32) {
        Some(node) => node,
        None => {
            return Err(Unwritable::MissingSource(source));
        },
    };
    proof {
        lemma_first_slot(document@, source as i32);
    }
    let record = &document.records[node];
    if !same_text(record.entity_type.as_str(), owner_kind) {
        return Err(Unwritable::MissingSource(source));
    }
    let pointer = if field < record.tokens.len() {
        match &record.tokens[field] {
            SatToken::Pointer(p) => *p,
            _ => NULL,
        }
    } else {
        NULL
    };
    if pointer < 0 {
        return Err(Unwritable::MissingSource(source));
    }
    match document.slot_of(pointer) {
        Some(slot) => Ok(slot),
        None => Err(Unwritable::MissingSource(source)),
    }
}

/// Replaces a geometry record's tokens with a null attribute pointer and
/// `tokens`, after checking it is of the kind expected.
fn write_tokens(document: &mut SatDocument, slot: usize, tokens: &Vec<SatToken>, expected: &str) -> (r:
    Result<(), Unwritable>)
    requires
        slot < old(document)@.len(),
    ensures
        old(document)@[slot as int].kind != expected@ ==> r is Err && failure_of(r->Err_0)
            == WriteFailure::WrongRecord(old(document)@[slot as int].kind, expected@)
            && final(document)@ == old(document)@,
        old(document)@[slot as int].kind == expected@ ==> r is Ok && final(document)@
            == old(document)@.update(
            slot as int,
            RecordView {
                tokens: seq![TokenView::Pointer(NULL)] + tokens_view(tokens@),
                ..old(document)@[slot as int]
            },
        ),
{
    if !same_text(document.records[slot].entity_type.as_str(), expected) {
        return Err(
            Unwritable::WrongRecord {
                found: document.records[slot].entity_type.clone(),
                expected: String::from_str(expected),
            },
        );
    }
    let mut all: Vec<SatToken> = Vec::new();
    all.push(SatToken::Pointer(NULL));
    let mut rest = duplicate_tokens(tokens);
    all.append(&mut rest);
    proof {
        assert(tokens_view(all@) =~= seq![TokenView::Pointer(NULL)] + tokens_view(tokens@));
    }
    document.set_tokens(slot, all);
    Ok(())
}

/// Writes one geometry through a node.
fn write_through(
    document: &mut SatDocument,
    source: u32,
    owner_kind: &str,
    field: usize,
    kind: &str,
    tokens: &Vec<SatToken>,
) -> (r: Result<(), Unwritable>)
    ensures
        match apply_form(old(document)@, source, owner_kind@, field as int, kind@, tokens_view(tokens@)) {
            Ok(d) => r is Ok && final(document)@ == d,
            Err(f) => r is Err && failure_of(r->Err_0) == f && final(document)@ == old(document)@,
        },
{
    let at = match geometry_slot(document, source, owner_kind, field) {
        Ok(at) => at,
        Err(e) => {
            return Err(e);
        },
    };
    proof {
        lemma_first_slot(document@, source as i32);
        let node = first_slot(document@, source as i32)->Some_0;
        lemma_first_slot(document@, pointer_field(document@[node], field as int));
    }
    write_tokens(document, at, tokens, kind)
}

/// Writes stop at the first failure: once one has failed, later ones change
/// nothing.
proof fn lemma_run_writes_stops(doc: Seq<RecordView>, writes: Seq<GeometryWrite>, more: Seq<GeometryWrite>)
    requires
        run_writes(doc, writes).0 is Err,
    ensures
        run_writes(doc, writes + more) == run_writes(doc, writes),
    decreases more.len(),
{
    if more.len() == 0 {
        assert(writes + more =~= writes);
    } else {
        lemma_run_writes_stops(doc, writes, more.drop_last());
        assert((writes + more).drop_last() =~= writes + more.drop_last());
    }
}

proof fn lemma_face_writes_concat(a: Seq<Face>, b: Seq<Face>, surfaces: Seq<Option<GeometryRecord>>)
    ensures
        face_writes(a + b, surfaces) == face_writes(a, surfaces) + face_writes(b, surfaces),
    decreases b.len(),
{
    if b.len() == 0 {
        assert(a + b =~= a);
        assert(face_writes(a, surfaces) + face_writes(b, surfaces) =~= face_writes(a, surfaces));
    } else {
        lemma_face_writes_concat(a, b.drop_last(), surfaces);
        assert((a + b).drop_last() =~= a + b.drop_last());
        assert((a + b).last() == b.last());
        let fa = face_writes(a, surfaces);
        let fb = face_writes(b.drop_last(), surfaces);
        match b.last().provenance {
            Provenance::Dirty(source) => {
                assert(fa + fb.push(face_write(b.last(), source, surfaces)) =~= (fa + fb).push(
                    face_write(b.last(), source, surfaces),
                ));
            },
            _ => {},
        }
    }
}

proof fn lemma_edge_writes_concat(a: Seq<Edge>, b: Seq<Edge>, curves: Seq<Option<GeometryRecord>>)
    ensures
        edge_writes(a + b, curves) == edge_writes(a, curves) + edge_writes(b, curves),
    decreases b.len(),
{
    if b.len() == 0 {
        assert(a + b =~= a);
        assert(edge_writes(a, curves) + edge_writes(b, curves) =~= edge_writes(a, curves));
    } else {
        lemma_edge_writes_concat(a, b.drop_last(), curves);
        assert((a + b).drop_last() =~= a + b.drop_last());
        assert((a + b).last() == b.last());
        let fa = edge_writes(a, curves);
        let fb = edge_writes(b.drop_last(), curves);
        match b.last().provenance {
            Provenance::Dirty(source) => {
                assert(fa + fb.push(edge_write(b.last(), source, curves)) =~= (fa + fb).push(
                    edge_write(b.last(), source, curves),
                ));
            },
            _ => {},
        }
    }
}

proof fn lemma_vertex_writes_concat(a: Seq<Vertex>, b: Seq<Vertex>)
    ensures
        vertex_writes(a + b) == vertex_writes(a) + vertex_writes(b),
    decreases b.len(),
{
    if b.len() == 0 {
        assert(a + b =~= a);
        assert(vertex_writes(a) + vertex_writes(b) =~= vertex_writes(a));
    } else {
        lemma_vertex_writes_concat(a, b.drop_last());
        assert((a + b).drop_last() =~= a + b.drop_last());
        assert((a + b).last() == b.last());
        let fa = vertex_writes(a);
        let fb = vertex_writes(b.drop_last());
        match b.last().provenance {
            Provenance::Dirty(source) => {
                assert(fa + fb.push(vertex_write(b.last(), source)) =~= (fa + fb).push(
                    vertex_write(b.last(), source),
                ));
            },
            _ => {},
        }
    }
}

/// A write that fails after a run of successful ones ends the whole run
/// there, whatever follows.
proof fn lemma_fail_at(
    start: Seq<RecordView>,
    done: Seq<GeometryWrite>,
    w: GeometryWrite,
    rest: Seq<GeometryWrite>,
    n: nat,
    doc: Seq<RecordView>,
)
    requires
        run_writes(start, done) == (Ok::<nat, WriteFailure>(n), doc),
        apply_write(doc, w) is Err,
    ensures
        run_writes(start, done.push(w) + rest) == (
            Err::<nat, WriteFailure>(apply_write(doc, w)->Err_0),
            doc,
        ),
{
    assert(done.push(w).drop_last() =~= done);
    lemma_run_writes_stops(start, done.push(w), rest);
}

/// A write that succeeds extends the run by one.
proof fn lemma_step_ok(start: Seq<RecordView>, done: Seq<GeometryWrite>, w: GeometryWrite, n: nat, doc: Seq<RecordView>)
    requires
        run_writes(start, done) == (Ok::<nat, WriteFailure>(n), doc),
        apply_write(doc, w) is Ok,
    ensures
        run_writes(start, done.push(w)) == (Ok::<nat, WriteFailure>(n + 1), apply_write(doc, w)->Ok_0),
{
    assert(done.push(w).drop_last() =~= done);
}

/// Writes a body back into the document it came from.
///
/// Each dirty face, then each dirty edge, then each dirty vertex has its
/// geometry written through its source record; clean and synthesized nodes
/// are left alone. The first failure stops the walk, with the writes before
/// it left in place. On success the result is the number of records
/// rewritten.
pub fn lower(body: &Body, document: &mut SatDocument) -> (r: Result<usize, Unwritable>)
    requires
        body.faces@.len() + body.edges@.len() + body.vertices@.len() <= usize::MAX,
    ensures
        final(document)@ == run_writes(old(document)@, planned_writes(*body)).1,
        match (r, run_writes(old(document)@, planned_writes(*body)).0) {
            (Ok(n), Ok(m)) => n == m,
            (Err(e), Err(f)) => failure_of(e) == f,
            _ => false,
        },
{
    let ghost start = document@;
    let ghost faces = body.faces@;
    let ghost edges = body.edges@;
    let ghost vertices = body.vertices@;
    let ghost all_faces = face_writes(faces, body.surfaces@);
    let ghost all_edges = edge_writes(edges, body.curves@);
    let ghost all_vertices = vertex_writes(vertices);
    let mut written: usize = 0;
    let mut i: usize = 0;
    assert(faces.take(0) =~= Seq::<Face>::empty());
    while i < body.faces.len()
        invariant
            i <= faces.len(),
            faces == body.faces@,
            start == old(document)@,
            all_faces == face_writes(faces, body.surfaces@),
            planned_writes(*body) == all_faces + all_edges + all_vertices,
            run_writes(start, face_writes(faces.take(i as int), body.surfaces@)) == (
                Ok::<nat, WriteFailure>(written as nat),
                document@,
            ),
            written <= i,
        decreases faces.len() - i,
    {
        let ghost done = face_writes(faces.take(i as int), body.surfaces@);
        let ghost doc_now = document@;
        proof {
            assert(faces.take(i + 1).drop_last() =~= faces.take(i as int));
            assert(faces.take(i + 1).last() == faces[i as int]);
            lemma_face_writes_concat(faces.take(i + 1), faces.skip(i + 1), body.surfaces@);
            assert(faces.take(i + 1) + faces.skip(i + 1) =~= faces);
        }
        match body.faces[i].provenance {
            Provenance::Dirty(source) => {
                let ghost w = face_write(faces[i as int], source, body.surfaces@);
                let ghost rest = face_writes(faces.skip(i + 1), body.surfaces@) + all_edges
                    + all_vertices;
                proof {
                    assert(planned_writes(*body) =~= done.push(w) + rest);
                }
                let k = body.faces[i].surface;
                let form: Option<&GeometryRecord> = if k < body.surfaces.len() {
                    body.surfaces[k].as_ref()
                } else {
                    None
                };
                match form {
                    None => {
                        proof {
                            lemma_fail_at(start, done, w, rest, written as nat, doc_now);
                        }
                        return Err(Unwritable::Surface);
                    },
                    Some(g) => {
                        match write_through(document, source, "face", 5, g.kind.as_str(), &g.tokens) {
                            Ok(()) => {
                                proof {
                                    lemma_step_ok(start, done, w, written as nat, doc_now);
                                }
                                written = written + 1;
                            },
                            Err(e) => {
                                proof {
                                    lemma_fail_at(start, done, w, rest, written as nat, doc_now);
                                }
                                return Err(e);
                            },
                        }
                    },
                }
            },
            _ => {},
        }
        i = i + 1;
    }
    assert(faces.take(faces.len() as int) =~= faces);
    let mut j: usize = 0;
    assert(edges.take(0) =~= Seq::<Edge>::empty());
    assert(all_faces + edge_writes(edges.take(0), body.curves@) =~= all_faces);
    while j < body.edges.len()
        invariant
            j <= edges.len(),
            edges == body.edges@,
            faces == body.faces@,
            start == old(document)@,
            all_edges == edge_writes(edges, body.curves@),
            planned_writes(*body) == all_faces + all_edges + all_vertices,
            run_writes(start, all_faces + edge_writes(edges.take(j as int), body.curves@)) == (
                Ok::<nat, WriteFailure>(written as nat),
                document@,
            ),
            written <= faces.len() + j,
            faces.len() + edges.len() + vertices.len() <= usize::MAX,
        decreases edges.len() - j,
    {
        let ghost done = all_faces + edge_writes(edges.take(j as int), body.curves@);
        let ghost doc_now = document@;
        proof {
            assert(edges.take(j + 1).drop_last() =~= edges.take(j as int));
            assert(edges.take(j + 1).last() == edges[j as int]);
            lemma_edge_writes_concat(edges.take(j + 1), edges.skip(j + 1), body.curves@);
            assert(edges.take(j + 1) + edges.skip(j + 1) =~= edges);
        }
        match body.edges[j].provenance {
            Provenance::Dirty(source) => {
                let ghost w = edge_write(edges[j as int], source, body.curves@);
                let ghost rest = edge_writes(edges.skip(j + 1), body.curves@) + all_vertices;
                proof {
                    assert(planned_writes(*body) =~= done.push(w) + rest);
                    assert(all_faces + edge_writes(edges.take(j + 1), body.curves@) =~= done.push(w));
                }
                let k = body.edges[j].curve;
                let form: Option<&GeometryRecord> = if k < body.curves.len() {
                    body.curves[k].as_ref()
                } else {
                    None
                };
                match form {
                    None => {
                        proof {
                            lemma_fail_at(start, done, w, rest, written as nat, doc_now);
                        }
                        return Err(Unwritable::Curve);
                    },
                    Some(g) => {
                        match write_through(document, source, "edge", 6, g.kind.as_str(), &g.tokens) {
                            Ok(()) => {
                                proof {
                                    lemma_step_ok(start, done, w, written as nat, doc_now);
                                }
                                written = written + 1;
                            },
                            Err(e) => {
                                proof {
                                    lemma_fail_at(start, done, w, rest, written as nat, doc_now);
                                }
                                return Err(e);
                            },
                        }
                    },
                }
            },
            _ => {
                proof {
                    assert(all_faces + edge_writes(edges.take(j + 1), body.curves@) =~= done);
                }
            },
        }
        j = j + 1;
    }
    assert(edges.take(edges.len() as int) =~= edges);
    let mut v: usize = 0;
    assert(vertices.take(0) =~= Seq::<Vertex>::empty());
    assert(all_faces + all_edges + vertex_writes(vertices.take(0)) =~= all_faces + all_edges);
    while v < body.vertices.len()
        invariant
            v <= vertices.len(),
            vertices == body.vertices@,
            edges == body.edges@,
            faces == body.faces@,
            start == old(document)@,
            all_vertices == vertex_writes(vertices),
            planned_writes(*body) == all_faces + all_edges + all_vertices,
            run_writes(start, all_faces + all_edges + vertex_writes(vertices.take(v as int))) == (
                Ok::<nat, WriteFailure>(written as nat),
                document@,
            ),
            written <= faces.len() + edges.len() + v,
            faces.len() + edges.len() + vertices.len() <= usize::MAX,
        decreases vertices.len() - v,
    {
        let ghost done = all_faces + all_edges + vertex_writes(vertices.take(v as int));
        let ghost doc_now = document@;
        proof {
            assert(vertices.take(v + 1).drop_last() =~= vertices.take(v as int));
            assert(vertices.take(v + 1).last() == vertices[v as int]);
            lemma_vertex_writes_concat(vertices.take(v + 1), vertices.skip(v + 1));
            assert(vertices.take(v + 1) + vertices.skip(v + 1) =~= vertices);
        }
        match body.vertices[v].provenance {
            Provenance::Dirty(source) => {
                let ghost w = vertex_write(vertices[v as int], source);
                let ghost rest = vertex_writes(vertices.skip(v + 1));
                proof {
                    assert(planned_writes(*body) =~= done.push(w) + rest);
                    assert(all_faces + all_edges + vertex_writes(vertices.take(v + 1)) =~= done.push(w));
                }
                let point = body.vertices[v].point;
                let mut tokens: Vec<SatToken> = Vec::new();
                tokens.push(SatToken::Position(point[0], point[1], point[2]));
                proof {
                    assert(tokens_view(tokens@) =~= seq![
                        TokenView::Position(vertices[v as int].point[0], vertices[v as int].point[1], vertices[v as int].point[2]),
                    ]);
                }
                match write_through(document, source, "vertex", 2, "point", &tokens) {
                    Ok(()) => {
                        proof {
                            lemma_step_ok(start, done, w, written as nat, doc_now);
                        }
                        written = written + 1;
                    },
                    Err(e) => {
                        proof {
                            lemma_fail_at(start, done, w, rest, written as nat, doc_now);
                        }
                        return Err(e);
                    },
                }
            },
            _ => {
                proof {
                    assert(all_faces + all_edges + vertex_writes(vertices.take(v + 1)) =~= done);
                }
            },
        }
        v = v + 1;
    }
    assert(vertices.take(vertices.len() as int) =~= vertices);
    Ok(written)
}

/// How many of a body's faces, edges and vertices a save would rewrite or
/// could not reuse: every node that is not clean.
///
/// Zero means the document comes back byte for byte.
pub fn pending(body: &Body) -> (n: usize)
    requires
        body.faces@.len() + body.edges@.len() + body.vertices@.len() <= usize::MAX,
    ensures
        n == pending_count(*body),
{
    let ghost fp = body.faces@.map_values(|f: Face| f.provenance);
    let ghost ep = body.edges@.map_values(|e: Edge| e.provenance);
    let ghost vp = body.vertices@.map_values(|v: Vertex| v.provenance);
    let mut n: usize = 0;
    let mut i: usize = 0;
    while i < body.faces.len()
        invariant
            i <= body.faces@.len(),
            fp == body.faces@.map_values(|f: Face| f.provenance),
            n == count_unclean(fp.take(i as int)),
            n <= i,
        decreases body.faces@.len() - i,
    {
        assert(fp.take(i + 1).drop_last() =~= fp.take(i as int));
        if !body.faces[i].provenance.is_reusable() {
            n = n + 1;
        }
        i = i + 1;
    }
    assert(fp.take(fp.len() as int) =~= fp);
    let ghost nf = n as nat;
    let mut j: usize = 0;
    while j < body.edges.len()
        invariant
            j <= body.edges@.len(),
            ep == body.edges@.map_values(|e: Edge| e.provenance),
            n == nf + count_unclean(ep.take(j as int)),
            nf <= body.faces@.len(),
            n <= nf + j,
            body.faces@.len() + body.edges@.len() + body.vertices@.len() <= usize::MAX,
        decreases body.edges@.len() - j,
    {
        assert(ep.take(j + 1).drop_last() =~= ep.take(j as int));
        if !body.edges[j].provenance.is_reusable() {
            n = n + 1;
        }
        j = j + 1;
    }
    assert(ep.take(ep.len() as int) =~= ep);
    let ghost ne = n as nat;
    let mut v: usize = 0;
    while v < body.vertices.len()
        invariant
            v <= body.vertices@.len(),
            vp == body.vertices@.map_values(|x: Vertex| x.provenance),
            n == ne + count_unclean(vp.take(v as int)),
            ne <= body.faces@.len() + body.edges@.len(),
            n <= ne + v,
            body.faces@.len() + body.edges@.len() + body.vertices@.len() <= usize::MAX,
        decreases body.vertices@.len() - v,
    {
        assert(vp.take(v + 1).drop_last() =~= vp.take(v as int));
        if !body.vertices[v].provenance.is_reusable() {
            n = n + 1;
        }
        v = v + 1;
    }
    assert(vp.take(vp.len() as int) =~= vp);
    n
}

proof fn lemma_face_writes_bounded(faces: Seq<Face>, surfaces: Seq<Option<GeometryRecord>>)
    ensures
        face_writes(faces, surfaces).len() <= count_unclean(faces.map_values(|f: Face| f.provenance)),
    decreases faces.len(),
{
    if faces.len() > 0 {
        lemma_face_writes_bounded(faces.drop_last(), surfaces);
        assert(faces.drop_last().map_values(|f: Face| f.provenance) =~= faces.map_values(
            |f: Face| f.provenance,
        ).drop_last());
    }
}

proof fn lemma_edge_writes_bounded(edges: Seq<Edge>, curves: Seq<Option<GeometryRecord>>)
    ensures
        edge_writes(edges, curves).len() <= count_unclean(edges.map_values(|e: Edge| e.provenance)),
    decreases edges.len(),
{
    if edges.len() > 0 {
        lemma_edge_writes_bounded(edges.drop_last(), curves);
        assert(edges.drop_last().map_values(|e: Edge| e.provenance) =~= edges.map_values(
            |e: Edge| e.provenance,
        ).drop_last());
    }
}

proof fn lemma_vertex_writes_bounded(vertices: Seq<Vertex>)
    ensures
        vertex_writes(vertices).len() <= count_unclean(vertices.map_values(|v: Vertex| v.provenance)),
    decreases vertices.len(),
{
    if vertices.len() > 0 {
        lemma_vertex_writes_bounded(vertices.drop_last());
        assert(vertices.drop_last().map_values(|v: Vertex| v.provenance) =~= vertices.map_values(
            |v: Vertex| v.provenance,
        ).drop_last());
    }
}

/// `count_unclean` counts exactly the provenances that are not clean, and is
/// zero exactly when every one is clean.
proof fn lemma_count_unclean_filters(ps: Seq<Provenance>)
    ensures
        count_unclean(ps) == ps.filter(|p: Provenance| !(p is Clean)).len(),
        count_unclean(ps) == 0 <==> forall|i: int| 0 <= i < ps.len() ==> #[trigger] ps[i] is Clean,
    decreases ps.len(),
{
    reveal(Seq::filter);
    if ps.len() > 0 {
        let rest = ps.drop_last();
        lemma_count_unclean_filters(rest);
        assert forall|i: int| 0 <= i < rest.len() implies #[trigger] ps[i] == rest[i] by {}
        if count_unclean(ps) == 0 {
            assert forall|i: int| 0 <= i < ps.len() implies #[trigger] ps[i] is Clean by {
                if i < rest.len() {
                    assert(ps[i] == rest[i]);
                }
            }
        }
        if forall|i: int| 0 <= i < ps.len() ==> #[trigger] ps[i] is Clean {
            assert(ps[ps.len() - 1] is Clean);
            assert forall|i: int| 0 <= i < rest.len() implies #[trigger] rest[i] is Clean by {
                assert(ps[i] is Clean);
            }
        }
    }
}

/// What `pending` counts: every face, edge and vertex whose provenance is not
/// clean, synthesized nodes as much as edited ones. So it is zero exactly when
/// every node is clean, and a body with one synthesized or edited node has a
/// nonzero count.
pub proof fn lemma_pending_counts_every_unclean_node(body: Body)
    ensures
        pending_count(body) == body.faces@.map_values(|f: Face| f.provenance).filter(
            |p: Provenance| !(p is Clean),
        ).len() + body.edges@.map_values(|e: Edge| e.provenance).filter(
            |p: Provenance| !(p is Clean),
        ).len() + body.vertices@.map_values(|v: Vertex| v.provenance).filter(
            |p: Provenance| !(p is Clean),
        ).len(),
        pending_count(body) == 0 <==> (forall|i: int|
            0 <= i < body.faces@.len() ==> #[trigger] body.faces@[i].provenance is Clean) && (forall|i: int|
            0 <= i < body.edges@.len() ==> #[trigger] body.edges@[i].provenance is Clean) && (forall|i: int|
            0 <= i < body.vertices@.len() ==> #[trigger] body.vertices@[i].provenance is Clean),
{
    let fp = body.faces@.map_values(|f: Face| f.provenance);
    let ep = body.edges@.map_values(|e: Edge| e.provenance);
    let vp = body.vertices@.map_values(|v: Vertex| v.provenance);
    lemma_count_unclean_filters(fp);
    lemma_count_unclean_filters(ep);
    lemma_count_unclean_filters(vp);
    assert forall|i: int| 0 <= i < fp.len() implies #[trigger] fp[i] == body.faces@[i].provenance by {}
    assert forall|i: int| 0 <= i < ep.len() implies #[trigger] ep[i] == body.edges@[i].provenance by {}
    assert forall|i: int| 0 <= i < vp.len() implies #[trigger] vp[i] == body.vertices@[i].provenance by {}
    if pending_count(body) == 0 {
        assert forall|i: int| 0 <= i < body.faces@.len() implies #[trigger] body.faces@[i].provenance is Clean by {
            assert(fp[i] is Clean);
        }
        assert forall|i: int| 0 <= i < body.edges@.len() implies #[trigger] body.edges@[i].provenance is Clean by {
            assert(ep[i] is Clean);
        }
        assert forall|i: int| 0 <= i < body.vertices@.len() implies #[trigger] body.vertices@[i].provenance is Clean by {
            assert(vp[i] is Clean);
        }
    }
    if (forall|i: int| 0 <= i < body.faces@.len() ==> #[trigger] body.faces@[i].provenance is Clean) && (forall|i: int|
        0 <= i < body.edges@.len() ==> #[trigger] body.edges@[i].provenance is Clean) && (forall|i: int|
        0 <= i < body.vertices@.len() ==> #[trigger] body.vertices@[i].provenance is Clean) {
        assert forall|i: int| 0 <= i < fp.len() implies #[trigger] fp[i] is Clean by {
            assert(body.faces@[i].provenance is Clean);
        }
        assert forall|i: int| 0 <= i < ep.len() implies #[trigger] ep[i] is Clean by {
            assert(body.edges@[i].provenance is Clean);
        }
        assert forall|i: int| 0 <= i < vp.len() implies #[trigger] vp[i] is Clean by {
            assert(body.vertices@[i].provenance is Clean);
        }
    }
}

/// A write with no record form, anywhere in a run, makes the run fail.
proof fn lemma_formless_write_fails(doc: Seq<RecordView>, writes: Seq<GeometryWrite>, k: int)
    requires
        0 <= k < writes.len(),
        writes[k].form is None,
    ensures
        run_writes(doc, writes).0 is Err,
    decreases writes.len(),
{
    if k < writes.len() - 1 {
        assert(writes.drop_last()[k] == writes[k]);
        lemma_formless_write_fails(doc, writes.drop_last(), k);
    }
}

/// A dirty edge whose curve has no record form asks for a write with no form.
proof fn lemma_edge_writes_formless(edges: Seq<Edge>, curves: Seq<Option<GeometryRecord>>, j: int)
    requires
        0 <= j < edges.len(),
        edges[j].provenance is Dirty,
        edges[j].curve >= curves.len() || curves[edges[j].curve as int] is None,
    ensures
        exists|k: int|
            0 <= k < edge_writes(edges, curves).len() && (#[trigger] edge_writes(edges, curves)[k]).form is None,
    decreases edges.len(),
{
    let rest = edge_writes(edges.drop_last(), curves);
    if j == edges.len() - 1 {
        assert(edge_writes(edges, curves)[rest.len() as int].form is None);
    } else {
        assert(edges.drop_last()[j] == edges[j]);
        lemma_edge_writes_formless(edges.drop_last(), curves, j);
        let k = choose|k: int| 0 <= k < rest.len() && (#[trigger] rest[k]).form is None;
        assert(edge_writes(edges, curves)[k] == rest[k]);
    }
}

/// A dirty face whose surface has no record form asks for a write with no
/// form.
proof fn lemma_face_writes_formless(faces: Seq<Face>, surfaces: Seq<Option<GeometryRecord>>, f: int)
    requires
        0 <= f < faces.len(),
        faces[f].provenance is Dirty,
        faces[f].surface >= surfaces.len() || surfaces[faces[f].surface as int] is None,
    ensures
        exists|k: int|
            0 <= k < face_writes(faces, surfaces).len() && (#[trigger] face_writes(faces, surfaces)[k]).form
                is None,
    decreases faces.len(),
{
    let rest = face_writes(faces.drop_last(), surfaces);
    if f == faces.len() - 1 {
        assert(face_writes(faces, surfaces)[rest.len() as int].form is None);
    } else {
        assert(faces.drop_last()[f] == faces[f]);
        lemma_face_writes_formless(faces.drop_last(), surfaces, f);
        let k = choose|k: int| 0 <= k < rest.len() && (#[trigger] rest[k]).form is None;
        assert(face_writes(faces, surfaces)[k] == rest[k]);
    }
}

/// An edited edge that cannot be written fails the whole save: when a dirty
/// edge's curve has no record form, `lower` returns an error and never
/// `Ok`, whatever the document.
pub proof fn lemma_unwritable_edge_fails_the_save(body: Body, doc: Seq<RecordView>, j: int)
    requires
        0 <= j < body.edges@.len(),
        body.edges@[j].provenance is Dirty,
        body.edges@[j].curve >= body.curves@.len() || body.curves@[body.edges@[j].curve as int] is None,
    ensures
        run_writes(doc, planned_writes(body)).0 is Err,
{
    let fw = face_writes(body.faces@, body.surfaces@);
    let ew = edge_writes(body.edges@, body.curves@);
    let vw = vertex_writes(body.vertices@);
    lemma_edge_writes_formless(body.edges@, body.curves@, j);
    let k = choose|k: int| 0 <= k < ew.len() && (#[trigger] ew[k]).form is None;
    assert(planned_writes(body)[fw.len() + k] == ew[k]);
    lemma_formless_write_fails(doc, planned_writes(body), fw.len() + k);
}

/// An edited face that cannot be written fails the whole save: when a dirty
/// face's surface has no record form, `lower` returns an error and never
/// `Ok`, whatever the document.
pub proof fn lemma_unwritable_face_fails_the_save(body: Body, doc: Seq<RecordView>, f: int)
    requires
        0 <= f < body.faces@.len(),
        body.faces@[f].provenance is Dirty,
        body.faces@[f].surface >= body.surfaces@.len() || body.surfaces@[body.faces@[f].surface as int] is None,
    ensures
        run_writes(doc, planned_writes(body)).0 is Err,
{
    let fw = face_writes(body.faces@, body.surfaces@);
    lemma_face_writes_formless(body.faces@, body.surfaces@, f);
    let k = choose|k: int| 0 <= k < fw.len() && (#[trigger] fw[k]).form is None;
    assert(planned_writes(body)[k] == fw[k]);
    lemma_formless_write_fails(doc, planned_writes(body), k);
}

/// The dirty faces ask for one write each.
proof fn lemma_face_writes_count(faces: Seq<Face>, surfaces: Seq<Option<GeometryRecord>>)
    ensures
        face_writes(faces, surfaces).len() == faces.map_values(|f: Face| f.provenance).filter(
            |p: Provenance| p is Dirty,
        ).len(),
    decreases faces.len(),
{
    reveal(Seq::filter);
    if faces.len() > 0 {
        lemma_face_writes_count(faces.drop_last(), surfaces);
        assert(faces.drop_last().map_values(|f: Face| f.provenance) =~= faces.map_values(
            |f: Face| f.provenance,
        ).drop_last());
    }
}

/// The dirty edges ask for one write each.
proof fn lemma_edge_writes_count(edges: Seq<Edge>, curves: Seq<Option<GeometryRecord>>)
    ensures
        edge_writes(edges, curves).len() == edges.map_values(|e: Edge| e.provenance).filter(
            |p: Provenance| p is Dirty,
        ).len(),
    decreases edges.len(),
{
    reveal(Seq::filter);
    if edges.len() > 0 {
        lemma_edge_writes_count(edges.drop_last(), curves);
        assert(edges.drop_last().map_values(|e: Edge| e.provenance) =~= edges.map_values(
            |e: Edge| e.provenance,
        ).drop_last());
    }
}

/// The dirty vertices ask for one write each.
proof fn lemma_vertex_writes_count(vertices: Seq<Vertex>)
    ensures
        vertex_writes(vertices).len() == vertices.map_values(|v: Vertex| v.provenance).filter(
            |p: Provenance| p is Dirty,
        ).len(),
    decreases vertices.len(),
{
    reveal(Seq::filter);
    if vertices.len() > 0 {
        lemma_vertex_writes_count(vertices.drop_last());
        assert(vertices.drop_last().map_values(|v: Vertex| v.provenance) =~= vertices.map_values(
            |v: Vertex| v.provenance,
        ).drop_last());
    }
}

/// A save that succeeds rewrites one record for every edited face, edge and
/// vertex, and none for a clean or synthesized one.
pub proof fn lemma_successful_save_writes_every_edit(body: Body, doc: Seq<RecordView>)
    ensures
        run_writes(doc, planned_writes(body)).0 matches Ok(n) ==> n == body.faces@.map_values(
            |f: Face| f.provenance,
        ).filter(|p: Provenance| p is Dirty).len() + body.edges@.map_values(|e: Edge| e.provenance).filter(
            |p: Provenance| p is Dirty,
        ).len() + body.vertices@.map_values(|v: Vertex| v.provenance).filter(|p: Provenance| p is Dirty).len(),
{
    lemma_face_writes_count(body.faces@, body.surfaces@);
    lemma_edge_writes_count(body.edges@, body.curves@);
    lemma_vertex_writes_count(body.vertices@);
    lemma_save_counts_writes(doc, planned_writes(body));
}

/// Every rewrite a save makes is of a node that is not clean: a body asks for
/// no more writes than it has pending nodes.
pub proof fn lemma_writes_within_pending(body: Body)
    ensures
        planned_writes(body).len() <= pending_count(body),
{
    lemma_face_writes_bounded(body.faces@, body.surfaces@);
    lemma_edge_writes_bounded(body.edges@, body.curves@);
    lemma_vertex_writes_bounded(body.vertices@);
}

/// An untouched body lowers back byte for byte: when nothing is pending, the
/// save succeeds, rewrites nothing, and leaves the document exactly as it
/// was.
pub proof fn lemma_untouched_lowers_byte_for_byte(body: Body, doc: Seq<RecordView>)
    requires
        pending_count(body) == 0,
    ensures
        run_writes(doc, planned_writes(body)) == (Ok::<nat, WriteFailure>(0), doc),
{
    lemma_writes_within_pending(body);
    assert(planned_writes(body).len() == 0);
}

/// A save only ever replaces tokens: whatever it does, and wherever it stops,
/// the document keeps its length and every record its id and entity type.
pub proof fn lemma_save_keeps_records(doc: Seq<RecordView>, writes: Seq<GeometryWrite>)
    ensures
        run_writes(doc, writes).1.len() == doc.len(),
        forall|i: int|
            0 <= i < doc.len() ==> (#[trigger] run_writes(doc, writes).1[i]).index == doc[i].index
                && run_writes(doc, writes).1[i].kind == doc[i].kind,
    decreases writes.len(),
{
    if writes.len() > 0 {
        lemma_save_keeps_records(doc, writes.drop_last());
        let d = run_writes(doc, writes.drop_last()).1;
        lemma_apply_keeps_records(d, writes.last());
    }
}

/// One write keeps the document's length and every record's id and type.
proof fn lemma_apply_keeps_records(d: Seq<RecordView>, w: GeometryWrite)
    ensures
        apply_write(d, w) matches Ok(d2) ==> d2.len() == d.len() && forall|i: int|
            0 <= i < d.len() ==> (#[trigger] d2[i]).index == d[i].index && d2[i].kind == d[i].kind,
{
    lemma_first_slot(d, w.source as i32);
    if let Some(node) = first_slot(d, w.source as i32) {
        lemma_first_slot(d, pointer_field(d[node], w.field));
    }
}

/// A save that succeeds rewrites one record per write it was asked for.
pub proof fn lemma_save_counts_writes(doc: Seq<RecordView>, writes: Seq<GeometryWrite>)
    ensures
        run_writes(doc, writes).0 matches Ok(n) ==> n == writes.len(),
    decreases writes.len(),
{
    if writes.len() > 0 {
        lemma_save_counts_writes(doc, writes.drop_last());
    }
}


/// The record a write rewrites, in the document as the write finds it: the
/// geometry record its node's record points at, when it has a form to write
/// and that record is there.
pub open spec fn write_target(d: Seq<RecordView>, w: GeometryWrite) -> Option<int> {
    match w.form {
        None => None,
        Some(_) => match geometry_slot_of(d, w.source, w.owner_kind, w.field) {
            Ok(at) => Some(at),
            Err(_) => None,
        },
    }
}

/// A save rewrites only what it was asked to: every record it changes is the
/// one some write aimed at, found through that write's node record in the
/// document as the write found it.
pub proof fn lemma_save_touches_only_targets(doc: Seq<RecordView>, writes: Seq<GeometryWrite>)
    ensures
        forall|i: int|
            0 <= i < doc.len() && #[trigger] run_writes(doc, writes).1[i] != doc[i] ==> exists|j: int|
                0 <= j < writes.len() && write_target(run_writes(doc, writes.take(j)).1, writes[j]) == Some(i),
    decreases writes.len(),
{
    if writes.len() > 0 {
        let n = writes.len() - 1;
        let pre = writes.drop_last();
        lemma_save_touches_only_targets(doc, pre);
        lemma_save_keeps_records(doc, pre);
        let d = run_writes(doc, pre).1;
        assert(writes.take(n) =~= pre);
        assert forall|i: int|
            0 <= i < doc.len() && #[trigger] run_writes(doc, writes).1[i] != doc[i] implies exists|j: int|
                0 <= j < writes.len() && write_target(run_writes(doc, writes.take(j)).1, writes[j]) == Some(i) by {
            if run_writes(doc, writes).1[i] != d[i] {
                let w = writes[n];
                assert(writes.last() == w);
                assert(run_writes(doc, pre).0 is Ok);
                assert(apply_write(d, w) is Ok);
                let at = geometry_slot_of(d, w.source, w.owner_kind, w.field)->Ok_0;
                assert(geometry_slot_of(d, w.source, w.owner_kind, w.field) is Ok);
                lemma_first_slot(d, w.source as i32);
                let node = first_slot(d, w.source as i32)->Some_0;
                lemma_first_slot(d, pointer_field(d[node], w.field));
                assert(0 <= at < d.len());
                assert(run_writes(doc, writes).1 == apply_write(d, w)->Ok_0);
                assert(i == at);
                assert(write_target(run_writes(doc, writes.take(n)).1, writes[n]) == Some(i));
            } else {
                let j = choose|j: int|
                    0 <= j < pre.len() && write_target(run_writes(doc, pre.take(j)).1, pre[j]) == Some(i);
                assert(pre.take(j) =~= writes.take(j));
                assert(write_target(run_writes(doc, writes.take(j)).1, writes[j]) == Some(i));
            }
        }
    }
}

} // verus!
