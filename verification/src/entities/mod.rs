//! Drawing entities whose rules are integer and flag logic.

pub mod hatch;
