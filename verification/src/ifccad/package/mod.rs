//! Directory-based IFCCAD package foundations: the stable diagnostic
//! vocabulary, the order reports list diagnostics in, and the entrypoint name.

pub mod context;
pub mod diagnostic;
pub mod error;
pub mod order;

pub use context::{DiagnosticContext, JsonNumber, PackageDiagnosticContextValue};
pub use diagnostic::{
    PackageDiagnostic, PackageDiagnosticSeverity, PackageValidationReport,
};
pub use error::PackageOpenError;

use vstd::prelude::*;

verus! {

/// Fixed IFCX entrypoint inside a directory-based IFCCAD package.
pub const PACKAGE_ENTRYPOINT: &'static str = "package.ifcx.json";

} // verus!
