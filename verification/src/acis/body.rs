//! The editable topology of a solid: nodes in arenas that name each other by
//! position.
//!
//! A lump holds shells, a shell faces, a face loops, a loop a ring of
//! coedges, each coedge runs along an edge, and an edge joins two vertices
//! along a curve. Each node remembers the record it was lifted from, if any.
//!
//! Curve and surface geometry is held in its record form, the entity type and
//! the tokens after the attribute pointer; a geometry with no record form is
//! held as `None`. Coordinates are the bits of their floating-point values.

use vstd::prelude::*;
use super::document::SatToken;

verus! {

/// Where a node came from.
#[derive(Debug, Clone, Copy, PartialEq, Eq, Structural)]
pub enum Provenance {
    /// Lifted from the record with this id and not edited since.
    Clean(u32),
    /// Lifted from the record with this id, then edited.
    Dirty(u32),
    /// Made here, with no record behind it.
    Synthesized,
}

impl Provenance {
    /// Whether the source record can be kept as it is.
    pub fn is_reusable(&self) -> (r: bool)
        ensures
            r == (*self is Clean),
    {
        match self {
            Provenance::Clean(_) => true,
            _ => false,
        }
    }
}

/// A curve or surface in its record form.
#[derive(Debug, Clone, PartialEq)]
pub struct GeometryRecord {
    /// The record's entity type, such as `straight-curve`.
    pub kind: String,
    /// The record's tokens after its attribute pointer.
    pub tokens: Vec<SatToken>,
}

#[derive(Debug, Clone, PartialEq)]
pub struct Vertex {
    /// The bits of the point's three coordinates.
    pub point: [u64; 3],
    pub provenance: Provenance,
}

#[derive(Debug, Clone, PartialEq)]
pub struct Edge {
    pub curve: usize,
    /// The bits of the parameter at the start vertex.
    pub start_parameter: u64,
    /// The bits of the parameter at the end vertex.
    pub end_parameter: u64,
    pub start: usize,
    pub end: usize,
    pub coedges: Vec<usize>,
    pub provenance: Provenance,
}

#[derive(Debug, Clone, PartialEq)]
pub struct Coedge {
    pub edge: usize,
    pub forward: bool,
    pub owner: usize,
    pub provenance: Provenance,
}

#[derive(Debug, Clone, PartialEq)]
pub struct Loop {
    pub coedges: Vec<usize>,
    pub owner: usize,
    pub provenance: Provenance,
}

#[derive(Debug, Clone, PartialEq)]
pub struct Face {
    pub surface: usize,
    pub forward: bool,
    pub loops: Vec<usize>,
    pub owner: usize,
    pub provenance: Provenance,
}

#[derive(Debug, Clone, PartialEq)]
pub struct Shell {
    pub faces: Vec<usize>,
    pub owner: usize,
    pub provenance: Provenance,
}

#[derive(Debug, Clone, PartialEq)]
pub struct Lump {
    pub shells: Vec<usize>,
    pub provenance: Provenance,
}

/// A solid's topology.
#[derive(Debug, Clone, PartialEq)]
pub struct Body {
    pub vertices: Vec<Vertex>,
    pub curves: Vec<Option<GeometryRecord>>,
    pub surfaces: Vec<Option<GeometryRecord>>,
    pub edges: Vec<Edge>,
    pub coedges: Vec<Coedge>,
    pub loops: Vec<Loop>,
    pub faces: Vec<Face>,
    pub shells: Vec<Shell>,
    pub lumps: Vec<Lump>,
    /// The body's lumps, in order.
    pub roots: Vec<usize>,
    pub provenance: Provenance,
}

impl Body {
    /// A body with nothing in it.
    pub fn new() -> (b: Self)
        ensures
            b.vertices@.len() == 0 && b.curves@.len() == 0 && b.surfaces@.len() == 0,
            b.edges@.len() == 0 && b.coedges@.len() == 0 && b.loops@.len() == 0,
            b.faces@.len() == 0 && b.shells@.len() == 0 && b.lumps@.len() == 0,
            b.roots@.len() == 0,
            b.provenance == Provenance::Synthesized,
    {
        Body {
            vertices: Vec::new(),
            curves: Vec::new(),
            surfaces: Vec::new(),
            edges: Vec::new(),
            coedges: Vec::new(),
            loops: Vec::new(),
            faces: Vec::new(),
            shells: Vec::new(),
            lumps: Vec::new(),
            roots: Vec::new(),
            provenance: Provenance::Synthesized,
        }
    }
}

} // verus!
