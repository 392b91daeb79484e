use acadifc::entities::hatch::{
    BoundaryEdge, BoundaryPath, BoundaryPathFlags, CircularArcEdge, EdgeType, HatchPatternType,
    HatchStyleType, LineEdge, PolylineEdge, BULGE_TOLERANCE_BITS,
};

#[test]
fn new_flags_are_empty() {
    let flags = BoundaryPathFlags::new();
    assert_eq!(flags.bits(), BoundaryPathFlags::DEFAULT);
    assert!(!flags.is_external());
    assert!(!flags.is_polyline());
    assert!(!flags.is_derived());
    assert!(!flags.is_outermost());
    assert!(!flags.is_not_closed());
    assert_eq!(BoundaryPathFlags::default(), flags);
}

#[test]
fn each_flag_reads_its_own_bit() {
    let flags = BoundaryPathFlags::from_bits(
        BoundaryPathFlags::EXTERNAL | BoundaryPathFlags::OUTERMOST | BoundaryPathFlags::NOT_CLOSED,
    );
    assert!(flags.is_external());
    assert!(!flags.is_polyline());
    assert!(!flags.is_derived());
    assert!(flags.is_outermost());
    assert!(flags.is_not_closed());
    assert_eq!(flags.bits(), 1 + 16 + 32);
}

#[test]
fn setting_a_flag_reads_back_and_keeps_the_others() {
    let mut flags = BoundaryPathFlags::from_bits(BoundaryPathFlags::TEXTBOX | BoundaryPathFlags::DUPLICATE);
    flags.set_polyline(true);
    assert!(flags.is_polyline());
    assert_eq!(flags.bits(), 8 | 256 | 2);
    flags.set_polyline(false);
    assert!(!flags.is_polyline());
    assert_eq!(flags.bits(), 8 | 256);
}

#[test]
fn the_last_setting_of_a_flag_wins() {
    let mut flags = BoundaryPathFlags::new();
    flags.set_external(true);
    flags.set_external(false);
    assert!(!flags.is_external());
    flags.set_derived(false);
    flags.set_derived(true);
    assert!(flags.is_derived());
    assert_eq!(flags.bits(), BoundaryPathFlags::DERIVED);
}

#[test]
fn flag_constants_are_single_bits() {
    assert_eq!(BoundaryPathFlags::EXTERNAL, 1);
    assert_eq!(BoundaryPathFlags::POLYLINE, 2);
    assert_eq!(BoundaryPathFlags::DERIVED, 4);
    assert_eq!(BoundaryPathFlags::TEXTBOX, 8);
    assert_eq!(BoundaryPathFlags::OUTERMOST, 16);
    assert_eq!(BoundaryPathFlags::NOT_CLOSED, 32);
    assert_eq!(BoundaryPathFlags::SELF_INTERSECTING, 64);
    assert_eq!(BoundaryPathFlags::TEXT_ISLAND, 128);
    assert_eq!(BoundaryPathFlags::DUPLICATE, 256);
}

#[test]
fn enum_codes_are_their_dxf_values() {
    assert_eq!(HatchPatternType::UserDefined.code(), 0);
    assert_eq!(HatchPatternType::Predefined.code(), 1);
    assert_eq!(HatchPatternType::Custom.code(), 2);
    assert_eq!(HatchStyleType::Normal.code(), 0);
    assert_eq!(HatchStyleType::Outer.code(), 1);
    assert_eq!(HatchStyleType::Ignore.code(), 2);
    assert_eq!(EdgeType::Polyline.code(), 0);
    assert_eq!(EdgeType::Line.code(), 1);
    assert_eq!(EdgeType::CircularArc.code(), 2);
    assert_eq!(EdgeType::EllipticArc.code(), 3);
    assert_eq!(EdgeType::Spline.code(), 4);
}

fn xy(x: f64, y: f64) -> [u64; 2] {
    [x.to_bits(), y.to_bits()]
}

#[test]
fn the_bulge_tolerance_is_the_bits_of_one_ten_billionth() {
    assert_eq!(BULGE_TOLERANCE_BITS, 1e-10f64.to_bits());
}

#[test]
fn a_new_polyline_has_no_bulge() {
    let edge = PolylineEdge::new(vec![xy(0.0, 0.0), xy(1.0, 0.0), xy(1.0, 1.0)], true);
    assert!(edge.is_closed);
    assert_eq!(edge.vertices.len(), 3);
    assert_eq!(edge.vertices[1], [1.0f64.to_bits(), 0.0f64.to_bits(), 0.0f64.to_bits()]);
    assert!(!edge.has_bulge());
}

#[test]
fn a_bulge_counts_only_above_the_tolerance() {
    let mut edge = PolylineEdge::new(vec![xy(0.0, 0.0)], false);
    edge.add_vertex(xy(2.0, 0.0), 1e-12f64.to_bits());
    assert!(!edge.has_bulge(), "a bulge within the tolerance is straight");
    edge.add_vertex(xy(3.0, 0.0), 1e-10f64.to_bits());
    assert!(!edge.has_bulge(), "the tolerance itself is straight");
    edge.add_vertex(xy(4.0, 1.0), (-0.5f64).to_bits());
    assert!(edge.has_bulge(), "a negative bulge bulges too");
    assert_eq!(edge.vertices.len(), 4);
    let nan = PolylineEdge { vertices: vec![[0, 0, f64::NAN.to_bits()]], is_closed: false };
    assert!(!nan.has_bulge());
}

#[test]
fn a_line_edge_holds_its_end_points() {
    let line = LineEdge { start: xy(0.0, 1.0), end: xy(2.0, 3.0) };
    assert_eq!(line.clone(), line);
    assert_eq!(f64::from_bits(line.end[1]), 3.0);
}

#[test]
fn a_new_boundary_path_is_empty() {
    let path = BoundaryPath::new();
    assert_eq!(path.flags.bits(), 0);
    assert!(path.edges.is_empty());
    assert!(path.boundary_handles.is_empty());
    assert!(!path.is_polyline());
    assert_eq!(BoundaryPath::default(), path);
}

#[test]
fn an_external_path_has_only_the_external_flag() {
    let path = BoundaryPath::external();
    assert!(path.flags.is_external());
    assert_eq!(path.flags.bits(), BoundaryPathFlags::EXTERNAL);
    let flagged = BoundaryPath::with_flags(BoundaryPathFlags::from_bits(BoundaryPathFlags::OUTERMOST));
    assert!(flagged.flags.is_outermost());
}

#[test]
fn a_polyline_edge_marks_the_path_as_a_polyline() {
    let mut path = BoundaryPath::new();
    path.add_edge(BoundaryEdge::Polyline(PolylineEdge::new(vec![xy(0.0, 0.0), xy(1.0, 1.0)], false)));
    assert!(path.flags.is_polyline());
    assert!(path.is_polyline());
    path.add_edge(BoundaryEdge::Line(LineEdge { start: xy(1.0, 1.0), end: xy(0.0, 0.0) }));
    assert!(!path.is_polyline(), "two edges are not one polyline");
    assert!(path.flags.is_polyline(), "the flag stays set");
    path.add_boundary_handle(0x2f);
    assert_eq!(path.boundary_handles, vec![0x2f]);
}

#[test]
fn a_line_edge_leaves_the_polyline_flag_alone() {
    let mut path = BoundaryPath::new();
    path.add_edge(BoundaryEdge::CircularArc(CircularArcEdge {
        center: xy(0.0, 0.0),
        radius: 1.0f64.to_bits(),
        start_angle: 0.0f64.to_bits(),
        end_angle: 3.0f64.to_bits(),
        counter_clockwise: true,
    }));
    assert!(!path.flags.is_polyline());
    assert!(!path.is_polyline());
    assert_eq!(path.edges.len(), 1);
}

#[test]
fn flags_rebuilt_from_their_bits_are_the_same_flags() {
    let mut flags = BoundaryPathFlags::new();
    flags.set_external(true);
    flags.set_derived(true);
    assert_eq!(BoundaryPathFlags::from_bits(flags.bits()), flags);
    assert_eq!(BoundaryPathFlags::from_bits(0x1ff).bits(), 0x1ff);
}
