//! Hatch boundary flags and the hatch enumerations.

use vstd::prelude::*;

verus! {

/// Hatch pattern type.
#[derive(Debug, Clone, Copy, PartialEq, Eq, Structural)]
pub enum HatchPatternType {
    /// User-defined pattern (DXF code 0).
    UserDefined,
    /// Predefined pattern (DXF code 1).
    Predefined,
    /// Custom pattern (DXF code 2).
    Custom,
}

impl HatchPatternType {
    /// The numeric code this type is stored as.
    pub fn code(self) -> (c: i32)
        ensures
            c == match self {
                HatchPatternType::UserDefined => 0i32,
                HatchPatternType::Predefined => 1i32,
                HatchPatternType::Custom => 2i32,
            },
    {
        match self {
            HatchPatternType::UserDefined => 0,
            HatchPatternType::Predefined => 1,
            HatchPatternType::Custom => 2,
        }
    }
}

/// Hatch style type.
#[derive(Debug, Clone, Copy, PartialEq, Eq, Structural)]
pub enum HatchStyleType {
    /// Hatch "odd parity" area (DXF code 0).
    Normal,
    /// Hatch outermost area only (DXF code 1).
    Outer,
    /// Hatch through entire area (DXF code 2).
    Ignore,
}

impl HatchStyleType {
    /// The numeric code this style is stored as.
    pub fn code(self) -> (c: i32)
        ensures
            c == match self {
                HatchStyleType::Normal => 0i32,
                HatchStyleType::Outer => 1i32,
                HatchStyleType::Ignore => 2i32,
            },
    {
        match self {
            HatchStyleType::Normal => 0,
            HatchStyleType::Outer => 1,
            HatchStyleType::Ignore => 2,
        }
    }
}

/// Edge type for boundary paths.
#[derive(Debug, Clone, Copy, PartialEq, Eq, Structural)]
pub enum EdgeType {
    Polyline,
    Line,
    CircularArc,
    EllipticArc,
    Spline,
}

impl EdgeType {
    /// The numeric code this edge type is stored as.
    pub fn code(self) -> (c: i32)
        ensures
            c == match self {
                EdgeType::Polyline => 0i32,
                EdgeType::Line => 1i32,
                EdgeType::CircularArc => 2i32,
                EdgeType::EllipticArc => 3i32,
                EdgeType::Spline => 4i32,
            },
    {
        match self {
            EdgeType::Polyline => 0,
            EdgeType::Line => 1,
            EdgeType::CircularArc => 2,
            EdgeType::EllipticArc => 3,
            EdgeType::Spline => 4,
        }
    }
}

/// A straight edge of a boundary path, its end points in the object's
/// coordinate system as the bits of their coordinates.
#[derive(Debug, Clone, PartialEq)]
pub struct LineEdge {
    pub start: [u64; 2],
    pub end: [u64; 2],
}

/// A polyline edge of a boundary path: each vertex is the bits of its x, its
/// y and the bulge of the segment that leaves it.
#[derive(Debug, Clone, PartialEq)]
pub struct PolylineEdge {
    pub vertices: Vec<[u64; 3]>,
    pub is_closed: bool,
}

/// The bits of the smallest bulge that counts as a bulge, 1e-10.
pub const BULGE_TOLERANCE_BITS: u64 = 0x3ddb_7cdf_d9d7_bdbb;

/// Whether the float with these bits is larger in magnitude than 1e-10. A
/// value that is not a number is not.
pub open spec fn bulges(z: u64) -> bool {
    let magnitude = z % 0x8000_0000_0000_0000;
    magnitude <= 0x7ff0_0000_0000_0000 && magnitude > BULGE_TOLERANCE_BITS
}

impl PolylineEdge {
    /// A polyline through `vertices`, each given as the bits of its x and y,
    /// with no bulge anywhere.
    pub fn new(vertices: Vec<[u64; 2]>, is_closed: bool) -> (e: Self)
        ensures
            e.is_closed == is_closed,
            e.vertices@.len() == vertices@.len(),
            forall|i: int|
                0 <= i < vertices@.len() ==> (#[trigger] e.vertices@[i])[0] == vertices@[i][0]
                    && e.vertices@[i][1] == vertices@[i][1] && e.vertices@[i][2] == 0,
    {
        let mut out: Vec<[u64; 3]> = Vec::new();
        let mut i: usize = 0;
        while i < vertices.len()
            invariant
                i <= vertices@.len(),
                out@.len() == i,
                forall|j: int|
                    0 <= j < i ==> (#[trigger] out@[j])[0] == vertices@[j][0] && out@[j][1]
                        == vertices@[j][1] && out@[j][2] == 0,
            decreases vertices@.len() - i,
        {
            let v = vertices[i];
            out.push([v[0], v[1], 0]);
            i = i + 1;
        }
        PolylineEdge { vertices: out, is_closed }
    }

    /// Adds a vertex at `point` whose outgoing segment has bulge `bulge`.
    pub fn add_vertex(&mut self, point: [u64; 2], bulge: u64)
        ensures
            final(self).is_closed == old(self).is_closed,
            final(self).vertices@.len() == old(self).vertices@.len() + 1,
            forall|i: int|
                0 <= i < old(self).vertices@.len() ==> #[trigger] final(self).vertices@[i] == old(
                    self,
                ).vertices@[i],
            final(self).vertices@.last()[0] == point[0],
            final(self).vertices@.last()[1] == point[1],
            final(self).vertices@.last()[2] == bulge,
    {
        self.vertices.push([point[0], point[1], bulge]);
    }

    /// Whether any vertex has a bulge larger in magnitude than 1e-10.
    pub fn has_bulge(&self) -> (r: bool)
        ensures
            r == exists|i: int| 0 <= i < self.vertices@.len() && bulges(#[trigger] self.vertices@[i][2]),
    {
        let mut i: usize = 0;
        while i < self.vertices.len()
            invariant
                i <= self.vertices@.len(),
                forall|j: int| 0 <= j < i ==> !bulges(#[trigger] self.vertices@[j][2]),
            decreases self.vertices@.len() - i,
        {
            let z = self.vertices[i][2];
            let magnitude = z % 0x8000_0000_0000_0000u64;
            if magnitude <= 0x7ff0_0000_0000_0000u64 && magnitude > BULGE_TOLERANCE_BITS {
                assert(bulges(self.vertices@[i as int][2]));
                return true;
            }
            i = i + 1;
        }
        false
    }
}

/// Boundary path flags: a bit set stored as its raw bits.
#[derive(Debug, Clone, Copy, PartialEq, Eq, Structural)]
pub struct BoundaryPathFlags {
    bits: u32,
}

/// Whether the bit `mask` is set in `bits`.
pub open spec fn has_bit(bits: u32, mask: u32) -> bool {
    bits & mask != 0
}

/// `bits` with the bit `mask` set to `value` and every other bit kept.
pub open spec fn with_bit(bits: u32, mask: u32, value: bool) -> u32 {
    if value {
        bits | mask
    } else {
        bits & !mask
    }
}

impl View for BoundaryPathFlags {
    type V = u32;

    closed spec fn view(&self) -> u32 {
        self.bits
    }
}

/// Flags are their bits: two values with the same bits are the same value,
/// so a value rebuilt from its own bits is that value.
pub proof fn lemma_flags_are_their_bits(f: BoundaryPathFlags, g: BoundaryPathFlags)
    ensures
        f@ == g@ ==> f == g,
{
}

impl BoundaryPathFlags {
    // The raw bit of each flag, for `from_bits`.
    pub const DEFAULT: u32 = 0;
    pub const EXTERNAL: u32 = 1;
    pub const POLYLINE: u32 = 2;
    pub const DERIVED: u32 = 4;
    pub const TEXTBOX: u32 = 8;
    pub const OUTERMOST: u32 = 16;
    pub const NOT_CLOSED: u32 = 32;
    pub const SELF_INTERSECTING: u32 = 64;
    pub const TEXT_ISLAND: u32 = 128;
    pub const DUPLICATE: u32 = 256;

    /// No flag set.
    pub fn new() -> (f: Self)
        ensures
            f@ == 0,
    {
        Self { bits: 0 }
    }

    /// Create from raw bits.
    pub fn from_bits(bits: u32) -> (f: Self)
        ensures
            f@ == bits,
    {
        Self { bits }
    }

    /// Get raw bits.
    pub fn bits(&self) -> (b: u32)
        ensures
            b == self@,
    {
        self.bits
    }

    pub fn is_external(&self) -> (b: bool)
        ensures
            b == has_bit(self@, 1),
    {
        self.bits & 1 != 0
    }

    pub fn is_polyline(&self) -> (b: bool)
        ensures
            b == has_bit(self@, 2),
    {
        self.bits & 2 != 0
    }

    pub fn is_derived(&self) -> (b: bool)
        ensures
            b == has_bit(self@, 4),
    {
        self.bits & 4 != 0
    }

    pub fn is_outermost(&self) -> (b: bool)
        ensures
            b == has_bit(self@, 16),
    {
        self.bits & 16 != 0
    }

    pub fn is_not_closed(&self) -> (b: bool)
        ensures
            b == has_bit(self@, 32),
    {
        self.bits & 32 != 0
    }

    pub fn set_external(&mut self, value: bool)
        ensures
            final(self)@ == with_bit(old(self)@, 1, value),
    {
        if value {
            self.bits = self.bits | 1;
        } else {
            self.bits = self.bits & !1u32;
        }
    }

    pub fn set_polyline(&mut self, value: bool)
        ensures
            final(self)@ == with_bit(old(self)@, 2, value),
    {
        if value {
            self.bits = self.bits | 2;
        } else {
            self.bits = self.bits & !2u32;
        }
    }

    pub fn set_derived(&mut self, value: bool)
        ensures
            final(self)@ == with_bit(old(self)@, 4, value),
    {
        if value {
            self.bits = self.bits | 4;
        } else {
            self.bits = self.bits & !4u32;
        }
    }
}

impl Default for BoundaryPathFlags {
    fn default() -> (f: Self)
        ensures
            f@ == 0,
    {
        Self::new()
    }
}

/// A circular arc edge of a boundary path, as the bits of its values; angles
/// are in radians.
#[derive(Debug, Clone, PartialEq)]
pub struct CircularArcEdge {
    pub center: [u64; 2],
    pub radius: u64,
    pub start_angle: u64,
    pub end_angle: u64,
    pub counter_clockwise: bool,
}

/// An elliptic arc edge of a boundary path, as the bits of its values; the
/// major axis end point is relative to the centre.
#[derive(Debug, Clone, PartialEq)]
pub struct EllipticArcEdge {
    pub center: [u64; 2],
    pub major_axis_endpoint: [u64; 2],
    pub minor_axis_ratio: u64,
    pub start_angle: u64,
    pub end_angle: u64,
    pub counter_clockwise: bool,
}

/// A spline edge of a boundary path, its values as bits; each control point
/// is its x, y and weight.
#[derive(Debug, Clone, PartialEq)]
pub struct SplineEdge {
    pub degree: i32,
    pub rational: bool,
    pub periodic: bool,
    pub knots: Vec<u64>,
    pub control_points: Vec<[u64; 3]>,
    pub fit_points: Vec<[u64; 2]>,
    pub start_tangent: [u64; 2],
    pub end_tangent: [u64; 2],
}

/// One edge of a boundary path.
#[derive(Debug, Clone, PartialEq)]
pub enum BoundaryEdge {
    Line(LineEdge),
    CircularArc(CircularArcEdge),
    EllipticArc(EllipticArcEdge),
    Spline(SplineEdge),
    Polyline(PolylineEdge),
}

/// A boundary path of a hatch: its flags, its edges, and the handles of the
/// objects it is associated with.
#[derive(Debug, Clone, PartialEq)]
pub struct BoundaryPath {
    pub flags: BoundaryPathFlags,
    pub edges: Vec<BoundaryEdge>,
    pub boundary_handles: Vec<u64>,
}

impl BoundaryPath {
    /// A path with no flags, edges or handles.
    pub fn new() -> (p: Self)
        ensures
            p.flags@ == 0,
            p.edges@.len() == 0,
            p.boundary_handles@.len() == 0,
    {
        BoundaryPath { flags: BoundaryPathFlags::new(), edges: Vec::new(), boundary_handles: Vec::new() }
    }

    /// A path with the given flags and no edges or handles.
    pub fn with_flags(flags: BoundaryPathFlags) -> (p: Self)
        ensures
            p.flags == flags,
            p.edges@.len() == 0,
            p.boundary_handles@.len() == 0,
    {
        BoundaryPath { flags, edges: Vec::new(), boundary_handles: Vec::new() }
    }

    /// An external path: only the external flag is set.
    pub fn external() -> (p: Self)
        ensures
            p.flags@ == BoundaryPathFlags::EXTERNAL,
            p.edges@.len() == 0,
            p.boundary_handles@.len() == 0,
    {
        let mut path = Self::new();
        path.flags.set_external(true);
        assert(0u32 | 1u32 == 1u32) by (bit_vector);
        path
    }

    /// Adds an edge; a polyline edge sets the polyline flag.
    pub fn add_edge(&mut self, edge: BoundaryEdge)
        ensures
            final(self).edges@ == old(self).edges@.push(edge),
            final(self).flags@ == (if edge is Polyline {
                with_bit(old(self).flags@, BoundaryPathFlags::POLYLINE, true)
            } else {
                old(self).flags@
            }),
            final(self).boundary_handles@ == old(self).boundary_handles@,
    {
        if matches!(edge, BoundaryEdge::Polyline(_)) {
            self.flags.set_polyline(true);
        }
        self.edges.push(edge);
    }

    /// Adds the handle of an associated object.
    pub fn add_boundary_handle(&mut self, handle: u64)
        ensures
            final(self).boundary_handles@ == old(self).boundary_handles@.push(handle),
            final(self).edges@ == old(self).edges@,
            final(self).flags == old(self).flags,
    {
        self.boundary_handles.push(handle);
    }

    /// Whether the path is a single polyline edge.
    pub fn is_polyline(&self) -> (r: bool)
        ensures
            r == (self.edges@.len() == 1 && self.edges@[0] is Polyline),
    {
        self.edges.len() == 1 && matches!(self.edges[0], BoundaryEdge::Polyline(_))
    }
}

impl Default for BoundaryPath {
    fn default() -> (p: Self)
        ensures
            p.flags@ == 0,
            p.edges@.len() == 0,
            p.boundary_handles@.len() == 0,
    {
        Self::new()
    }
}

/// Setting a single-bit flag makes it read back as the value set, and leaves
/// every other bit as it was.
pub proof fn lemma_set_flag_reads_back(bits: u32, mask: u32, value: bool)
    requires
        mask == 1 || mask == 2 || mask == 4,
    ensures
        has_bit(with_bit(bits, mask, value), mask) == value,
        with_bit(bits, mask, value) & !mask == bits & !mask,
{
    if value {
        assert((bits | mask) & mask != 0 && (bits | mask) & !mask == bits & !mask) by (bit_vector)
            requires mask == 1u32 || mask == 2u32 || mask == 4u32;
    } else {
        assert((bits & !mask) & mask == 0 && (bits & !mask) & !mask == bits & !mask) by (bit_vector)
            requires mask == 1u32 || mask == 2u32 || mask == 4u32;
    }
}

/// Setting a flag twice is the same as setting it once: only the last value
/// counts.
pub proof fn lemma_set_flag_last_wins(bits: u32, mask: u32, first: bool, second: bool)
    requires
        mask == 1 || mask == 2 || mask == 4,
    ensures
        with_bit(with_bit(bits, mask, first), mask, second) == with_bit(bits, mask, second),
{
    assert((bits | mask) | mask == bits | mask) by (bit_vector);
    assert((bits & !mask) | mask == bits | mask) by (bit_vector);
    assert((bits | mask) & !mask == bits & !mask) by (bit_vector);
    assert((bits & !mask) & !mask == bits & !mask) by (bit_vector);
}

} // verus!
