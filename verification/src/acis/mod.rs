//! Bringing an ACIS document into an editable topology, and putting it back.
//!
//! ```text
//! SatDocument ──lift──► Body ──edit──► ──lower──► SatDocument
//! ```
//!
//! Every node lifted records the record id it came from. Lowering reads that
//! back: a node still clean is left as the record it came from, byte for byte, so
//! whatever the topology does not model survives an edit that never touched
//! it. Only nodes an edit dirtied are rewritten.

pub mod append;
pub mod lift;
pub mod body;
pub mod document;
pub mod lower;
pub mod round_trip;
pub mod relift;
pub mod reread;

pub use append::{append, Unappendable, Written};
pub use lift::{lift, lift_body, Loss};
pub use lower::{lower, pending, Unwritable};
