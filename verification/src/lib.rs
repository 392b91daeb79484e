//! IFC support for CAD drawings: IFCCAD package diagnostics and
//! canonicalisation errors, hatch boundary flags, and the bridge that moves
//! ACIS solids between a record document and an editable topology.
//!
//! Geometry that is carried through the ACIS bridge is kept as the raw bits of
//! its coordinates; the floating-point work on it lives outside this library.

pub mod acis;
pub mod entities;
pub mod ifccad;
