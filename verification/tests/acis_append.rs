//! Writing a whole solid into an ACIS document, and reading it back.

use acadifc::acis::body::{Body, Coedge, Edge, Face, GeometryRecord, Loop, Lump, Provenance, Shell, Vertex};
use acadifc::acis::document::{SatDocument, SatRecord, SatToken};
use acadifc::acis::lift::Reading;
use acadifc::acis::append::next_in;
use acadifc::acis::{append, lift, lift_body, Unappendable};

fn position(p: [f64; 3]) -> SatToken {
    SatToken::Position(p[0].to_bits(), p[1].to_bits(), p[2].to_bits())
}

/// What the kernel makes of each record: whether it has a case for it as a
/// curve or as a surface (the analytic kinds), and, for an edge on a
/// straight curve, where its two vertices sit on that line.
fn readings(document: &SatDocument) -> Vec<Reading> {
    let find = |id: i32| document.records.iter().find(|r| r.index == id);
    let link = |record: &SatRecord, i: usize| match record.tokens.get(i) {
        Some(SatToken::Pointer(p)) => Some(*p),
        _ => None,
    };
    let triple = |record: &SatRecord, i: usize| match record.tokens.get(i) {
        Some(SatToken::Position(x, y, z)) => Some([f64::from_bits(*x), f64::from_bits(*y), f64::from_bits(*z)]),
        _ => None,
    };
    let corner = |vertex: i32| -> Option<[f64; 3]> {
        let vertex = find(vertex)?;
        triple(find(link(vertex, 2)?)?, 1)
    };
    let placed = |record: &SatRecord| -> Option<(u64, u64)> {
        if record.entity_type != "edge" {
            return None;
        }
        let line = find(link(record, 6)?)?;
        if line.entity_type != "straight-curve" {
            return None;
        }
        let (origin, direction) = (triple(line, 1)?, triple(line, 2)?);
        let along = |p: [f64; 3]| {
            let dot: f64 = (0..3).map(|i| (p[i] - origin[i]) * direction[i]).sum();
            let norm: f64 = (0..3).map(|i| direction[i] * direction[i]).sum();
            dot / norm
        };
        let (start, end) = (corner(link(record, 1)?)?, corner(link(record, 3)?)?);
        Some((along(start).to_bits(), along(end).to_bits()))
    };
    document
        .records
        .iter()
        .map(|record| Reading {
            curve: matches!(record.entity_type.as_str(), "straight-curve" | "ellipse-curve"),
            surface: matches!(
                record.entity_type.as_str(),
                "plane-surface" | "cone-surface" | "sphere-surface" | "torus-surface"
            ),
            placed: placed(record),
        })
        .collect()
}

/// An axis-aligned box with one corner at `origin` and the given size, built
/// node by node: eight vertices, twelve edges on straight curves, six planar
/// faces each bounded by a ring of four coedges.
fn cuboid(origin: [f64; 3], size: [f64; 3]) -> Body {
    let corner = |v: usize| -> [f64; 3] {
        let mut p = origin;
        for axis in 0..3 {
            if v & (1 << axis) != 0 {
                p[axis] += size[axis];
            }
        }
        p
    };
    let mut body = Body::new();
    for v in 0..8 {
        let p = corner(v);
        body.vertices.push(Vertex {
            point: [p[0].to_bits(), p[1].to_bits(), p[2].to_bits()],
            provenance: Provenance::Synthesized,
        });
    }
    // Edge from v to v with one more bit set along `axis`.
    let mut ends: Vec<(usize, usize)> = Vec::new();
    for axis in 0..3 {
        for v in 0..8usize {
            if v & (1 << axis) == 0 {
                let w = v | (1 << axis);
                let mut direction = [0.0; 3];
                direction[axis] = 1.0;
                body.curves.push(Some(GeometryRecord {
                    kind: "straight-curve".to_string(),
                    tokens: vec![position(corner(v)), position(direction)],
                }));
                body.edges.push(Edge {
                    curve: body.curves.len() - 1,
                    start_parameter: 0.0f64.to_bits(),
                    end_parameter: size[axis].to_bits(),
                    start: v,
                    end: w,
                    coedges: Vec::new(),
                    provenance: Provenance::Synthesized,
                });
                ends.push((v, w));
            }
        }
    }
    body.shells.push(Shell { faces: Vec::new(), owner: 0, provenance: Provenance::Synthesized });
    body.lumps.push(Lump { shells: vec![0], provenance: Provenance::Synthesized });
    body.roots.push(0);
    for axis in 0..3 {
        let (b, c) = ((axis + 1) % 3, (axis + 2) % 3);
        for side in 0..2usize {
            let base = side << axis;
            let ring = [base, base | (1 << b), base | (1 << b) | (1 << c), base | (1 << c)];
            let mut normal = [0.0; 3];
            normal[axis] = if side == 1 { 1.0 } else { -1.0 };
            let mut u = [0.0; 3];
            u[b] = 1.0;
            body.surfaces.push(Some(GeometryRecord {
                kind: "plane-surface".to_string(),
                tokens: vec![position(corner(base)), position(normal), position(u)],
            }));
            let f = body.faces.len();
            let l = body.loops.len();
            body.faces.push(Face {
                surface: body.surfaces.len() - 1,
                forward: true,
                loops: vec![l],
                owner: 0,
                provenance: Provenance::Synthesized,
            });
            body.shells[0].faces.push(f);
            body.loops.push(Loop { coedges: Vec::new(), owner: f, provenance: Provenance::Synthesized });
            for k in 0..4 {
                let (from, to) = (ring[k], ring[(k + 1) % 4]);
                let e = ends
                    .iter()
                    .position(|&(s, t)| (s, t) == (from, to) || (s, t) == (to, from))
                    .unwrap();
                let co = body.coedges.len();
                body.coedges.push(Coedge {
                    edge: e,
                    forward: ends[e].0 == from,
                    owner: l,
                    provenance: Provenance::Synthesized,
                });
                body.edges[e].coedges.push(co);
                body.loops[l].coedges.push(co);
            }
        }
    }
    body
}

fn euler_characteristic(body: &Body) -> i64 {
    body.vertices.len() as i64 - body.edges.len() as i64 + body.faces.len() as i64
}

#[test]
fn a_box_written_out_comes_back_the_same_box() {
    let solid = cuboid([0.0, 0.0, 0.0], [10.0, 20.0, 30.0]);
    let mut document = SatDocument::new();
    let written = append(&solid, &mut document).expect("a valid solid writes");
    assert!(written.records > 0);

    let (bodies, loss) = lift(&document, &readings(&document));
    assert!(loss.is_empty(), "{loss:?}");
    assert_eq!(bodies.len(), 1);
    let back = &bodies[0];
    assert_eq!(back.faces.len(), 6);
    assert_eq!(back.edges.len(), 12);
    assert_eq!(back.vertices.len(), 8);
    assert_eq!(euler_characteristic(back), 2);
    // What came back holds together well enough to be written again.
    let mut again = SatDocument::new();
    assert!(append(back, &mut again).is_ok());
}

#[test]
fn the_corners_come_back_where_they_were() {
    let solid = cuboid([1.0, 2.0, 3.0], [4.0, 5.0, 6.0]);
    let mut document = SatDocument::new();
    append(&solid, &mut document).unwrap();
    let (bodies, _) = lift(&document, &readings(&document));
    let mut corners: Vec<[f64; 3]> = bodies[0]
        .vertices
        .iter()
        .map(|v| [f64::from_bits(v.point[0]), f64::from_bits(v.point[1]), f64::from_bits(v.point[2])])
        .collect();
    corners.sort_by(|a, b| a.partial_cmp(b).unwrap());
    assert_eq!(corners.first(), Some(&[1.0, 2.0, 3.0]));
    assert_eq!(corners.last(), Some(&[5.0, 7.0, 9.0]));
}

#[test]
fn a_second_body_lands_beside_the_first() {
    let mut document = SatDocument::new();
    append(&cuboid([0.0; 3], [1.0; 3]), &mut document).unwrap();
    append(&cuboid([9.0; 3], [1.0; 3]), &mut document).unwrap();
    let (bodies, loss) = lift(&document, &readings(&document));
    assert!(loss.is_empty(), "{loss:?}");
    assert_eq!(bodies.len(), 2, "the first was not overwritten");
    for body in &bodies {
        assert_eq!(body.faces.len(), 6);
    }
}

#[test]
fn an_inconsistent_body_is_refused_rather_than_written() {
    let mut solid = cuboid([0.0; 3], [1.0; 3]);
    solid.faces.remove(0);
    let mut document = SatDocument::new();
    assert_eq!(append(&solid, &mut document).err(), Some(Unappendable::Inconsistent));
    assert_eq!(document.record_count(), 0, "nothing was added");
}

#[test]
fn a_curve_with_no_record_form_is_refused_after_what_came_before_it() {
    let mut solid = cuboid([0.0; 3], [1.0; 3]);
    solid.curves[3] = None;
    let mut document = SatDocument::new();
    assert_eq!(append(&solid, &mut document).err(), Some(Unappendable::Curve));
    // A point and a vertex record per vertex, then the three curves before it.
    assert_eq!(document.record_count(), 16 + 3);
}

#[test]
fn a_surface_with_no_record_form_is_refused() {
    let mut solid = cuboid([0.0; 3], [1.0; 3]);
    solid.surfaces[0] = None;
    let mut document = SatDocument::new();
    assert_eq!(append(&solid, &mut document).err(), Some(Unappendable::Surface));
    assert_eq!(document.record_count(), 16 + 12);
}

#[test]
fn the_body_record_comes_last_and_the_count_is_exact() {
    let solid = cuboid([0.0; 3], [1.0; 3]);
    let mut document = SatDocument::new();
    document.add_record(acadifc::acis::document::SatRecord {
        index: -1,
        entity_type: "unrelated".to_string(),
        tokens: Vec::new(),
    });
    let written = append(&solid, &mut document).unwrap();
    // 16 point and vertex records, 12 curves, 6 surfaces, 12 edges, 24
    // coedges, 6 loops, 6 faces, one shell, one lump, one body.
    assert_eq!(written.records, 16 + 12 + 6 + 12 + 24 + 6 + 6 + 1 + 1 + 1);
    assert_eq!(written.body, (1 + written.records - 1) as i32);
    assert_eq!(document.records[written.body as usize].entity_type, "body");
    assert_eq!(document.records[0].entity_type, "unrelated");
}

#[test]
fn siblings_are_strung_together() {
    let order = vec![4, 7, 2];
    assert_eq!(next_in(&order, 4, 100, 10), 107);
    assert_eq!(next_in(&order, 7, 100, 10), 102);
    assert_eq!(next_in(&order, 2, 100, 10), -1);
    assert_eq!(next_in(&order, 5, 100, 10), -1);
    assert_eq!(next_in(&order, 4, 100, 5), -1, "the next one is past the arena");
}

#[test]
fn the_lifted_lists_name_the_records_written_for_the_solid() {
    let solid = cuboid([0.0; 3], [1.0; 3]);
    let mut document = SatDocument::new();
    let written = append(&solid, &mut document).unwrap();
    let flags = readings(&document);
    let (back, loss) = lift_body(&document, &flags, written.body as usize).expect("the body lifts");
    assert!(loss.is_empty());
    // Records: 16 for the vertices, 12 curves, 6 surfaces, 12 edges, 24
    // coedges, 6 loops, 6 faces, then the shell and the lump.
    let lumps_start = 16 + 12 + 6 + 12 + 24 + 6 + 6 + 1;
    let shells_start = lumps_start - 1;
    let faces_start = shells_start - 6;
    assert_eq!(back.roots, vec![0]);
    assert_eq!(back.lumps[0].provenance, Provenance::Clean(lumps_start as u32));
    assert_eq!(back.shells[0].provenance, Provenance::Clean(shells_start as u32));
    let face_ids: Vec<_> = back.shells[0].faces.iter().map(|f| back.faces[*f].provenance).collect();
    let expected: Vec<_> = solid.shells[0]
        .faces
        .iter()
        .map(|f| Provenance::Clean((faces_start + f) as u32))
        .collect();
    assert_eq!(face_ids, expected);
    for (k, face) in back.faces.iter().enumerate() {
        let ring = &back.loops[face.loops[0]];
        assert_eq!(ring.coedges.len(), 4, "face {k} keeps its four coedges");
    }
}

fn source(p: Provenance) -> usize {
    match p {
        Provenance::Clean(id) | Provenance::Dirty(id) => id as usize,
        Provenance::Synthesized => panic!("a lifted node names its record"),
    }
}

#[test]
fn every_node_comes_back_as_it_was_written() {
    let solid = cuboid([1.0, 2.0, 3.0], [4.0, 5.0, 6.0]);
    let mut document = SatDocument::new();
    let written = append(&solid, &mut document).unwrap();
    let flags = readings(&document);
    let (back, _) = lift_body(&document, &flags, written.body as usize).expect("the body lifts");
    // 16 point and vertex records, 12 curves, 6 surfaces, then the edges,
    // coedges, loops and faces.
    let edges_start = 16 + 12 + 6;
    let coedges_start = edges_start + 12;
    let faces_start = coedges_start + 24 + 6;
    assert_eq!(back.coedges.len(), 24);
    for coedge in &back.coedges {
        let k = source(coedge.provenance) - coedges_start;
        let written_for = &solid.coedges[k];
        assert_eq!(coedge.forward, written_for.forward);
        let edge = &back.edges[coedge.edge];
        assert_eq!(source(edge.provenance), edges_start + written_for.edge);
        let was = &solid.edges[written_for.edge];
        assert_eq!(back.vertices[edge.start].point, solid.vertices[was.start].point);
        assert_eq!(back.vertices[edge.end].point, solid.vertices[was.end].point);
        assert_eq!(source(back.vertices[edge.start].provenance), 2 * was.start + 1);
        assert_eq!(back.curves[edge.curve], solid.curves[was.curve]);
    }
    for face in &back.faces {
        let k = source(face.provenance) - faces_start;
        assert_eq!(face.forward, solid.faces[k].forward);
        assert_eq!(back.surfaces[face.surface], solid.surfaces[solid.faces[k].surface]);
    }
}

#[test]
fn an_edge_written_against_its_parameters_comes_back_turned_round() {
    let mut solid = cuboid([0.0; 3], [1.0; 3]);
    let (start, end) = (solid.edges[0].start, solid.edges[0].end);
    solid.edges[0].start_parameter = 1.0f64.to_bits();
    solid.edges[0].end_parameter = 0.0f64.to_bits();
    let mut document = SatDocument::new();
    let written = append(&solid, &mut document).unwrap();
    // The kernel places no edge here, so the parameters written are read.
    let flags: Vec<Reading> = readings(&document)
        .into_iter()
        .map(|r| Reading { placed: None, ..r })
        .collect();
    let (back, _) = lift_body(&document, &flags, written.body as usize).expect("the body lifts");
    let edges_start = 16 + 12 + 6;
    let edge = back
        .edges
        .iter()
        .find(|e| source(e.provenance) == edges_start)
        .expect("the first edge comes back");
    assert_eq!(source(back.vertices[edge.start].provenance), 2 * end + 1);
    assert_eq!(source(back.vertices[edge.end].provenance), 2 * start + 1);
    assert_eq!(edge.start_parameter, 0.0f64.to_bits());
    assert_eq!(edge.end_parameter, 1.0f64.to_bits());
}
