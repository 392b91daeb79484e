//! Canonical byte representation for language-neutral IFCCAD values: the
//! stable error vocabulary.

pub mod error;

pub use error::{CanonicalizationError, CanonicalizationErrorCode};
