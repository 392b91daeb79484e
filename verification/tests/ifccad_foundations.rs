use acadifc::ifccad::canonicalization::{CanonicalizationError, CanonicalizationErrorCode};
use acadifc::ifccad::conformance::{bundled_conformance_root, BUNDLED_CONFORMANCE_VERSION};
use acadifc::ifccad::package::PACKAGE_ENTRYPOINT;

#[test]
fn error_codes_have_stable_text() {
    assert_eq!(CanonicalizationErrorCode::IntegerInvalid.as_str(), "VECTOR_INTEGER_INVALID");
    assert_eq!(CanonicalizationErrorCode::FloatInvalid.as_str(), "VECTOR_FLOAT_INVALID");
}

#[test]
fn an_error_displays_its_code_then_its_message() {
    let error = CanonicalizationError::new(CanonicalizationErrorCode::FloatInvalid, "nan is not a number");
    assert_eq!(error.code(), CanonicalizationErrorCode::FloatInvalid);
    assert_eq!(error.to_string(), "VECTOR_FLOAT_INVALID: nan is not a number");
    let other = CanonicalizationError::new(CanonicalizationErrorCode::IntegerInvalid, "1.0");
    assert_eq!(other.to_string(), "VECTOR_INTEGER_INVALID: 1.0");
}

#[test]
fn the_bundled_root_is_under_the_manifest_directory() {
    assert_eq!(BUNDLED_CONFORMANCE_VERSION, "1.0.0");
    assert_eq!(
        bundled_conformance_root("/work/acadifc"),
        "/work/acadifc/conformance/ifccad/1.0.0"
    );
    assert_eq!(
        bundled_conformance_root("/work/acadifc/"),
        "/work/acadifc/conformance/ifccad/1.0.0"
    );
    assert_eq!(bundled_conformance_root(""), "conformance/ifccad/1.0.0");
}

#[test]
fn the_package_entrypoint_is_fixed() {
    assert_eq!(PACKAGE_ENTRYPOINT, "package.ifcx.json");
}
