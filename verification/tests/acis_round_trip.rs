//! Lifting an ACIS document into editable topology and lowering it back.

use acadifc::acis::body::{GeometryRecord, Provenance};
use acadifc::acis::document::{SatDocument, SatRecord, SatToken};
use acadifc::acis::lift::{float_bits_le, Reading};
use acadifc::acis::{lift, lift_body, lower, pending, Unwritable};

fn record(kind: &str, tokens: Vec<SatToken>) -> SatRecord {
    SatRecord {
        index: -1,
        entity_type: kind.to_string(),
        tokens,
    }
}

fn pointer(index: i32) -> SatToken {
    SatToken::Pointer(index)
}

fn at(x: f64, y: f64, z: f64) -> SatToken {
    SatToken::Position(x.to_bits(), y.to_bits(), z.to_bits())
}

fn float(x: f64) -> SatToken {
    SatToken::Float(x.to_bits())
}

/// What the kernel makes of each record: whether it has a case for it as a
/// curve or as a surface (the analytic kinds), and, for an edge on a
/// straight curve, where its two vertices sit on that line.
fn readings(document: &SatDocument) -> Vec<Reading> {
    let find = |id: i32| document.records.iter().find(|r| r.index == id);
    let link = |record: &SatRecord, i: usize| match record.tokens.get(i) {
        Some(SatToken::Pointer(p)) => Some(*p),
        _ => None,
    };
    let triple = |record: &SatRecord, i: usize| match record.tokens.get(i) {
        Some(SatToken::Position(x, y, z)) => Some([f64::from_bits(*x), f64::from_bits(*y), f64::from_bits(*z)]),
        _ => None,
    };
    let corner = |vertex: i32| -> Option<[f64; 3]> {
        let vertex = find(vertex)?;
        triple(find(link(vertex, 2)?)?, 1)
    };
    let placed = |record: &SatRecord| -> Option<(u64, u64)> {
        if record.entity_type != "edge" {
            return None;
        }
        let line = find(link(record, 6)?)?;
        if line.entity_type != "straight-curve" {
            return None;
        }
        let (origin, direction) = (triple(line, 1)?, triple(line, 2)?);
        let along = |p: [f64; 3]| {
            let dot: f64 = (0..3).map(|i| (p[i] - origin[i]) * direction[i]).sum();
            let norm: f64 = (0..3).map(|i| direction[i] * direction[i]).sum();
            dot / norm
        };
        let (start, end) = (corner(link(record, 1)?)?, corner(link(record, 3)?)?);
        Some((along(start).to_bits(), along(end).to_bits()))
    };
    document
        .records
        .iter()
        .map(|record| Reading {
            curve: matches!(record.entity_type.as_str(), "straight-curve" | "ellipse-curve"),
            surface: matches!(
                record.entity_type.as_str(),
                "plane-surface" | "cone-surface" | "sphere-surface" | "torus-surface"
            ),
            placed: placed(record),
        })
        .collect()
}

/// A body with one lump, one shell, one planar face bounded by one loop of
/// four coedges: the smallest thing that exercises the whole walk.
fn one_face_document() -> SatDocument {
    let mut document = SatDocument::new();
    // 0 body → 1 lump → 2 shell → 3 face
    document.add_record(record("body", vec![pointer(-1), pointer(1), pointer(-1), pointer(-1)]));
    document.add_record(record("lump", vec![pointer(-1), pointer(-1), pointer(2), pointer(0)]));
    document.add_record(record(
        "shell",
        vec![pointer(-1), pointer(-1), pointer(-1), pointer(3), pointer(-1), pointer(1)],
    ));
    // face: attribute, next, loop, shell, subshell, surface, sense
    document.add_record(record(
        "face",
        vec![
            pointer(-1),
            pointer(-1),
            pointer(4),
            pointer(2),
            pointer(-1),
            pointer(5),
            SatToken::Ident("forward".to_string()),
            SatToken::Ident("single".to_string()),
        ],
    ));
    // loop: attribute, next, coedge, face
    document.add_record(record("loop", vec![pointer(-1), pointer(-1), pointer(6), pointer(3)]));
    // plane-surface: attribute, root, normal, u
    document.add_record(record(
        "plane-surface",
        vec![pointer(-1), at(0.0, 0.0, 0.0), at(0.0, 0.0, 1.0), at(1.0, 0.0, 0.0)],
    ));
    // Four coedges in a ring, 6..9, each on its own edge 10..13.
    for step in 0..4 {
        let next = 6 + (step + 1) % 4;
        let previous = 6 + (step + 3) % 4;
        document.add_record(record(
            "coedge",
            vec![
                pointer(-1),
                pointer(next),
                pointer(previous),
                pointer(-1),
                pointer(10 + step),
                SatToken::Ident("forward".to_string()),
                pointer(4),
                pointer(-1),
            ],
        ));
    }
    // Four edges 10..13, each between two of the vertices 14..17 on a line.
    for step in 0..4 {
        document.add_record(record(
            "edge",
            vec![
                pointer(-1),
                pointer(14 + step),
                float(0.0),
                pointer(14 + (step + 1) % 4),
                float(1.0),
                pointer(6 + step),
                pointer(18),
                SatToken::Ident("forward".to_string()),
            ],
        ));
    }
    // Four vertices 14..17, each naming a point 19..22.
    for step in 0..4 {
        document.add_record(record("vertex", vec![pointer(-1), pointer(10 + step), pointer(19 + step)]));
    }
    // 18: the straight curve every edge runs along.
    document.add_record(record(
        "straight-curve",
        vec![pointer(-1), at(0.0, 0.0, 0.0), at(1.0, 0.0, 0.0)],
    ));
    // 19..22: the corners.
    for corner in [(0.0, 0.0), (10.0, 0.0), (10.0, 10.0), (0.0, 10.0)] {
        document.add_record(record("point", vec![pointer(-1), at(corner.0, corner.1, 0.0)]));
    }
    document
}

/// Marks a vertex edited, with every edge that ends at it and every face
/// one of those edges bounds.
fn soil_vertex(body: &mut acadifc::acis::body::Body, vertex: usize) {
    fn soiled(p: Provenance) -> Provenance {
        match p {
            Provenance::Clean(id) | Provenance::Dirty(id) => Provenance::Dirty(id),
            Provenance::Synthesized => Provenance::Synthesized,
        }
    }
    body.vertices[vertex].provenance = soiled(body.vertices[vertex].provenance);
    let mut faces = Vec::new();
    for e in 0..body.edges.len() {
        if body.edges[e].start == vertex || body.edges[e].end == vertex {
            body.edges[e].provenance = soiled(body.edges[e].provenance);
            for &c in &body.edges[e].coedges {
                let face = body.loops[body.coedges[c].owner].owner;
                if !faces.contains(&face) {
                    faces.push(face);
                }
            }
        }
    }
    for face in faces {
        body.faces[face].provenance = soiled(body.faces[face].provenance);
    }
}

#[test]
fn a_body_lifts_with_its_topology_intact() {
    let document = one_face_document();
    let (bodies, loss) = lift(&document, &readings(&document));
    assert_eq!(bodies.len(), 1, "one body record, one body");
    assert!(loss.is_empty(), "{loss:?}");
    let body = &bodies[0];
    assert_eq!(body.lumps.len(), 1);
    assert_eq!(body.shells.len(), 1);
    assert_eq!(body.faces.len(), 1);
    assert_eq!(body.loops.len(), 1);
    assert_eq!(body.coedges.len(), 4, "the ring closed rather than running on");
    assert_eq!(body.edges.len(), 4);
    assert_eq!(body.vertices.len(), 4);
}

#[test]
fn the_surface_is_the_one_the_file_named() {
    let document = one_face_document();
    let (bodies, _) = lift(&document, &readings(&document));
    let body = &bodies[0];
    let face = &body.faces[0];
    let surface = body.surfaces[face.surface].as_ref().expect("the file says plane-surface");
    assert_eq!(
        surface,
        &GeometryRecord {
            kind: "plane-surface".to_string(),
            tokens: vec![at(0.0, 0.0, 0.0), at(0.0, 0.0, 1.0), at(1.0, 0.0, 0.0)],
        }
    );
}

#[test]
fn a_record_shared_by_several_nodes_becomes_one_node() {
    // All four edges name the same straight-curve.
    let document = one_face_document();
    let (bodies, _) = lift(&document, &readings(&document));
    assert_eq!(bodies[0].curves.len(), 1);
}

#[test]
fn every_lifted_node_remembers_where_it_came_from() {
    let document = one_face_document();
    let (bodies, _) = lift(&document, &readings(&document));
    let body = &bodies[0];
    for face in &body.faces {
        assert!(matches!(face.provenance, Provenance::Clean(_)));
    }
    for edge in &body.edges {
        assert!(matches!(edge.provenance, Provenance::Clean(_)));
    }
    for vertex in &body.vertices {
        assert!(matches!(vertex.provenance, Provenance::Clean(_)));
    }
}

#[test]
fn an_untouched_body_lowers_back_byte_for_byte() {
    let mut document = one_face_document();
    let before = document.clone();
    let (bodies, _) = lift(&document, &readings(&document));
    assert_eq!(pending(&bodies[0]), 0, "nothing was touched");
    let written = lower(&bodies[0], &mut document).expect("an untouched body lowers");
    assert_eq!(written, 0, "no record needed rewriting");
    assert_eq!(document, before);
}

#[test]
fn an_edit_rewrites_only_what_it_touched() {
    let mut document = one_face_document();
    let (mut bodies, _) = lift(&document, &readings(&document));
    let body = &mut bodies[0];
    let corner = 0;
    body.vertices[corner].point = [1.0f64.to_bits(), 2.0f64.to_bits(), 3.0f64.to_bits()];
    soil_vertex(body, corner);

    // A corner of a quadrilateral belongs to two edges, which bound one face.
    assert_eq!(pending(body), 1 + 2 + 1, "one vertex, two edges, one face");
    let written = lower(body, &mut document).expect("a moved corner lowers");
    assert_eq!(written, 4);
    // And the topology is still intact.
    let (relifted, loss) = lift(&document, &readings(&document));
    assert!(loss.is_empty(), "{loss:?}");
    assert_eq!(relifted[0].vertices.len(), 4);
    assert_eq!(relifted[0].edges.len(), 4);
}

#[test]
fn a_moved_corner_comes_back_where_it_was_put() {
    let mut document = one_face_document();
    let (mut bodies, _) = lift(&document, &readings(&document));
    let body = &mut bodies[0];
    let moved_to = [1.0f64.to_bits(), 2.0f64.to_bits(), 3.0f64.to_bits()];
    body.vertices[0].point = moved_to;
    soil_vertex(body, 0);
    lower(body, &mut document).unwrap();

    let (again, loss) = lift(&document, &readings(&document));
    assert!(loss.is_empty(), "{loss:?}");
    let moved = again[0].vertices.iter().any(|v| v.point == moved_to);
    assert!(moved, "the edit did not survive the round trip");
}

#[test]
fn a_surface_the_kernel_does_not_know_is_reported_rather_than_dropped() {
    let mut document = one_face_document();
    // Turn the plane into something with no kernel case.
    document.records[5].entity_type = "spline-surface".to_string();
    let (bodies, loss) = lift(&document, &readings(&document));
    assert!(!loss.surfaces.is_empty(), "the loss is named");
    assert_eq!(loss.surfaces, vec![5]);
    assert!(bodies.is_empty() || bodies[0].faces.is_empty());
}

#[test]
fn a_curve_the_kernel_does_not_know_keeps_its_edges_and_is_reported() {
    let mut document = one_face_document();
    document.records[18].entity_type = "intcurve-curve".to_string();
    let (bodies, loss) = lift(&document, &readings(&document));
    // Reported once, for the one curve node all four edges share.
    assert_eq!(loss.curves, vec![18]);
    let body = &bodies[0];
    assert_eq!(body.coedges.len(), 4);
    assert_eq!(body.edges.len(), 4);
    for edge in &body.edges {
        assert!(matches!(edge.provenance, Provenance::Clean(_)));
    }
    // The curve is carried as its record, kind and all.
    assert_eq!(body.curves.len(), 1);
    assert_eq!(body.curves[0].as_ref().map(|c| c.kind.as_str()), Some("intcurve-curve"));
}

#[test]
fn a_record_of_the_wrong_kind_is_reported_broken() {
    let mut document = one_face_document();
    // The shell names the curve where its first face should be.
    document.records[2].tokens[3] = pointer(18);
    let (bodies, loss) = lift(&document, &readings(&document));
    assert_eq!(loss.broken, vec![18]);
    assert_eq!(bodies[0].shells.len(), 1);
    assert!(bodies[0].faces.is_empty());
}

#[test]
fn lifting_one_body_by_its_record() {
    let document = one_face_document();
    let flags = readings(&document);
    let (body, loss) = lift_body(&document, &flags, 0).expect("record 0 is a body");
    assert!(loss.is_empty());
    assert_eq!(body.provenance, Provenance::Clean(0));
    assert_eq!(body.faces.len(), 1);
    assert_eq!(body.roots, vec![0]);
    assert!(lift_body(&document, &flags, 1).is_none(), "record 1 is a lump");
    assert!(lift_body(&document, &flags, 99).is_none(), "there is no record 99");
}

#[test]
fn a_body_whose_lump_is_missing_gives_nothing() {
    let mut document = one_face_document();
    document.records[0].tokens[1] = pointer(40);
    let flags = readings(&document);
    assert!(lift_body(&document, &flags, 0).is_none());
    let (bodies, loss) = lift(&document, &flags);
    assert!(bodies.is_empty());
    assert!(loss.is_empty());
}

#[test]
fn an_edge_stored_against_its_curve_is_turned_round() {
    let mut document = one_face_document();
    // The first edge's parameters run backwards along its curve.
    document.records[10].tokens[2] = float(1.0);
    document.records[10].tokens[4] = float(0.0);
    // The kernel places no edge here, so the record's own order is read.
    let unplaced: Vec<Reading> = readings(&document)
        .into_iter()
        .map(|r| Reading { placed: None, ..r })
        .collect();
    let (bodies, _) = lift(&document, &unplaced);
    let body = &bodies[0];
    let edge = &body.edges[0];
    assert_eq!(edge.start_parameter, 0.0f64.to_bits());
    assert_eq!(edge.end_parameter, 1.0f64.to_bits());
    assert_eq!(body.vertices[edge.start].provenance, Provenance::Clean(15));
    assert_eq!(body.vertices[edge.end].provenance, Provenance::Clean(14));
}

#[test]
fn a_lowered_edit_through_a_missing_record_fails() {
    let mut document = one_face_document();
    let (mut bodies, _) = lift(&document, &readings(&document));
    let body = &mut bodies[0];
    body.vertices[0].provenance = Provenance::Dirty(77);
    assert_eq!(lower(body, &mut document), Err(Unwritable::MissingSource(77)));
}

#[test]
fn float_bits_order_like_the_floats() {
    let le = |a: f64, b: f64| float_bits_le(a.to_bits(), b.to_bits());
    assert!(le(0.0, 1.0));
    assert!(!le(1.0, 0.0));
    assert!(le(-2.0, -1.0));
    assert!(!le(-1.0, -2.0));
    assert!(le(-0.0, 0.0) && le(0.0, -0.0));
    assert!(le(-1.0, 3.0));
    assert!(le(5.0, f64::INFINITY));
    assert!(le(f64::NEG_INFINITY, -5.0));
    assert!(!le(f64::NAN, 1.0));
    assert!(!le(1.0, f64::NAN));
    assert!(le(2.5, 2.5));
}

#[test]
fn a_save_changes_no_record_but_those_it_aims_at() {
    let mut document = one_face_document();
    let before = document.clone();
    let (mut bodies, _) = lift(&document, &readings(&document));
    let body = &mut bodies[0];
    body.vertices[0].point = [1.0f64.to_bits(), 2.0f64.to_bits(), 3.0f64.to_bits()];
    soil_vertex(body, 0);
    let vertex_record = match body.vertices[0].provenance {
        Provenance::Dirty(id) => id as usize,
        _ => unreachable!(),
    };
    lower(body, &mut document).unwrap();
    // The face and edges write back the geometry they already had; only the
    // point the vertex record names is different.
    let changed: Vec<usize> = (0..before.records.len())
        .filter(|&i| before.records[i] != document.records[i])
        .collect();
    let point_record = match before.records[vertex_record].tokens[2] {
        SatToken::Pointer(p) => p as usize,
        _ => unreachable!(),
    };
    assert_eq!(changed, vec![point_record]);
    assert_eq!(before.records[point_record].entity_type, "point");
}

#[test]
fn a_straight_edge_is_placed_by_its_vertices_not_by_its_record() {
    let mut document = one_face_document();
    let edge = document
        .records
        .iter_mut()
        .find(|record| record.entity_type == "edge")
        .expect("an edge to spoil");
    // The first edge runs from (0, 0) to (10, 0) along the x axis, so 0..10 is
    // the truth. Ten units of the line starting ten further along is the same
    // length in the wrong place.
    edge.tokens[2] = float(10.0);
    edge.tokens[4] = float(20.0);

    let (bodies, _) = lift(&document, &readings(&document));
    let body = bodies.first().expect("a body");
    let x = |v: usize| f64::from_bits(body.vertices[v].point[0]);
    let y = |v: usize| f64::from_bits(body.vertices[v].point[1]);
    let spoiled = body
        .edges
        .iter()
        .find(|edge| x(edge.start) == 0.0 && y(edge.start) == 0.0 && x(edge.end) == 10.0 && y(edge.end) == 0.0)
        .map(|edge| (f64::from_bits(edge.start_parameter), f64::from_bits(edge.end_parameter)))
        .expect("the edge between the first two corners");
    assert_eq!(spoiled, (0.0, 10.0), "the record was believed over the vertices");
}

#[test]
fn a_ring_that_never_closes_is_cut_and_reported() {
    let mut document = one_face_document();
    // The last coedge leads back to the second rather than the first, so the
    // walk from the first never comes home.
    document.records[9].tokens[1] = pointer(7);
    let (bodies, loss) = lift(&document, &readings(&document));
    assert_eq!(loss.broken.len(), 1);
    assert!((7..=9).contains(&loss.broken[0]), "the cut is at a coedge of the ring");
    // The walk went round until it had made more coedges than the document
    // has records, and stopped there.
    assert_eq!(bodies[0].loops[0].coedges.len(), document.records.len() + 1);
}

#[test]
fn an_intact_document_lifts_with_nothing_broken() {
    let document = one_face_document();
    let (bodies, loss) = lift(&document, &readings(&document));
    assert!(loss.is_empty());
    // Every node reached: the four edges are the coedges' edges, their eight
    // ends are the four corners, and the one curve is theirs.
    let body = &bodies[0];
    assert_eq!(body.edges.len(), 4);
    assert_eq!(body.vertices.len(), 4);
    assert_eq!(body.curves.len(), 1);
    assert_eq!(body.surfaces.len(), 1);
    assert!(body.edges.iter().all(|e| !e.coedges.is_empty()));
}

#[test]
fn a_curve_named_as_a_surface_is_not_read_as_one() {
    let mut document = one_face_document();
    // The face names the straight curve where its surface should be.
    document.records[3].tokens[5] = pointer(18);
    let (bodies, loss) = lift(&document, &readings(&document));
    assert_eq!(loss.surfaces, vec![18]);
    assert!(bodies.is_empty() || bodies[0].faces.is_empty());
}

#[test]
fn a_record_named_as_a_vertex_but_of_another_kind_is_reported_broken() {
    let mut document = one_face_document();
    // The first edge names a point record where its start vertex should be.
    document.records[10].tokens[1] = pointer(19);
    let (bodies, loss) = lift(&document, &readings(&document));
    assert_eq!(loss.broken, vec![19]);
    // The edge could not be made, so its coedge is left out of the ring.
    assert_eq!(bodies[0].edges.len(), 3);
}
