use acadifc::ifccad::package::{
    DiagnosticContext, PackageDiagnostic, PackageDiagnosticContextValue,
    PackageDiagnosticSeverity, PackageValidationReport,
};

fn diagnostic(
    code: &str,
    severity: PackageDiagnosticSeverity,
    resource_uri: Option<&str>,
    location: Option<&str>,
) -> PackageDiagnostic {
    PackageDiagnostic {
        code: code.to_owned(),
        severity,
        resource_uri: resource_uri.map(str::to_owned),
        location: location.map(str::to_owned),
        context: DiagnosticContext::new(),
        message: String::new(),
    }
}

fn diagnostic_with_context(code: &str, context: DiagnosticContext) -> PackageDiagnostic {
    PackageDiagnostic {
        code: code.to_owned(),
        severity: PackageDiagnosticSeverity::Error,
        resource_uri: Some("resource.json".to_owned()),
        location: Some("/value".to_owned()),
        context,
        message: String::new(),
    }
}

#[test]
fn report_is_valid_without_error_diagnostics() {
    let report = PackageValidationReport::from_diagnostics(vec![diagnostic(
        "TEST_WARNING",
        PackageDiagnosticSeverity::Warning,
        None,
        None,
    )]);

    assert!(report.is_valid());
}

#[test]
fn report_is_invalid_with_an_error_diagnostic() {
    let report = PackageValidationReport::from_diagnostics(vec![diagnostic(
        "TEST_ERROR",
        PackageDiagnosticSeverity::Error,
        None,
        None,
    )]);

    assert!(!report.is_valid());
}

#[test]
fn diagnostics_are_sorted_by_the_language_neutral_contract() {
    let report = PackageValidationReport::from_diagnostics(vec![
        diagnostic("Z", PackageDiagnosticSeverity::Info, Some("z.json"), Some("/b")),
        diagnostic("B", PackageDiagnosticSeverity::Warning, Some("a.json"), Some("/a")),
        diagnostic("A", PackageDiagnosticSeverity::Error, Some("a.json"), Some("/a")),
    ]);

    let codes: Vec<_> = report
        .diagnostics
        .iter()
        .map(|item| item.code.as_str())
        .collect();
    assert_eq!(codes, ["A", "B", "Z"]);
}

#[test]
fn context_breaks_otherwise_equal_sort_keys_canonically() {
    let mut later_context = DiagnosticContext::new();
    later_context.insert(
        "z".to_owned(),
        PackageDiagnosticContextValue::Number(0.into()),
    );
    later_context.insert(
        "a".to_owned(),
        PackageDiagnosticContextValue::String("zeta".to_owned()),
    );
    let mut earlier_context = DiagnosticContext::new();
    earlier_context.insert(
        "a".to_owned(),
        PackageDiagnosticContextValue::String("alpha".to_owned()),
    );
    earlier_context.insert(
        "z".to_owned(),
        PackageDiagnosticContextValue::Number(0.into()),
    );

    let report = PackageValidationReport::from_diagnostics(vec![
        diagnostic_with_context("SAME", later_context),
        diagnostic_with_context("SAME", earlier_context.clone()),
    ]);

    assert_eq!(report.diagnostics[0].context, earlier_context);
}

#[test]
fn an_empty_report_is_valid() {
    let report = PackageValidationReport::from_diagnostics(Vec::new());
    assert!(report.diagnostics.is_empty());
    assert!(report.is_valid());
}

#[test]
fn equal_keys_keep_the_order_they_came_in() {
    let mut first = diagnostic("SAME", PackageDiagnosticSeverity::Error, Some("a.json"), None);
    first.message = "first".to_owned();
    let mut second = diagnostic("SAME", PackageDiagnosticSeverity::Error, Some("a.json"), None);
    second.message = "second".to_owned();
    let report = PackageValidationReport::from_diagnostics(vec![first, second]);
    assert_eq!(report.diagnostics[0].message, "first");
    assert_eq!(report.diagnostics[1].message, "second");
}

#[test]
fn a_missing_resource_sorts_before_any_resource() {
    let report = PackageValidationReport::from_diagnostics(vec![
        diagnostic("WITH", PackageDiagnosticSeverity::Error, Some("a.json"), None),
        diagnostic("WITHOUT", PackageDiagnosticSeverity::Error, None, None),
    ]);
    assert_eq!(report.diagnostics[0].code, "WITHOUT");
    assert_eq!(report.diagnostics[1].code, "WITH");
}

#[test]
fn severity_breaks_ties_of_resource_and_location() {
    let report = PackageValidationReport::from_diagnostics(vec![
        diagnostic("I", PackageDiagnosticSeverity::Info, Some("a.json"), Some("/a")),
        diagnostic("W", PackageDiagnosticSeverity::Warning, Some("a.json"), Some("/a")),
        diagnostic("E", PackageDiagnosticSeverity::Error, Some("a.json"), Some("/a")),
    ]);
    let codes: Vec<_> = report.diagnostics.iter().map(|d| d.code.as_str()).collect();
    assert_eq!(codes, ["E", "W", "I"]);
    assert!(!report.is_valid());
}

#[test]
fn context_keeps_its_keys_in_byte_order_and_replaces_values() {
    let mut context = DiagnosticContext::new();
    assert_eq!(context.len(), 0);
    assert_eq!(
        context.insert("b".to_owned(), PackageDiagnosticContextValue::Boolean(true)),
        None
    );
    assert_eq!(
        context.insert("a".to_owned(), PackageDiagnosticContextValue::Null),
        None
    );
    assert_eq!(
        context.insert("b".to_owned(), PackageDiagnosticContextValue::Boolean(false)),
        Some(PackageDiagnosticContextValue::Boolean(true))
    );
    assert_eq!(context.len(), 2);
    assert_eq!(
        String::from_utf8(context.to_json()).unwrap(),
        r#"{"a":null,"b":false}"#
    );
}

#[test]
fn context_json_writes_numbers_and_escaped_strings() {
    let mut context = DiagnosticContext::new();
    context.insert("n".to_owned(), PackageDiagnosticContextValue::Number((-42).into()));
    context.insert("p".to_owned(), PackageDiagnosticContextValue::Number(1234567u64.into()));
    context.insert(
        "s".to_owned(),
        PackageDiagnosticContextValue::String("say \"hi\"".to_owned()),
    );
    assert_eq!(
        String::from_utf8(context.to_json()).unwrap(),
        r#"{"n":-42,"p":1234567,"s":"say \"hi\""}"#
    );
    assert_eq!(
        String::from_utf8(DiagnosticContext::new().to_json()).unwrap(),
        "{}"
    );
}

#[test]
fn context_json_escapes_controls_and_keeps_other_characters() {
    let mut context = DiagnosticContext::new();
    context.insert(
        "s".to_owned(),
        PackageDiagnosticContextValue::String("a\\b\n\t\u{1}\u{1f}é€/".to_owned()),
    );
    assert_eq!(
        String::from_utf8(context.to_json()).unwrap(),
        "{\"s\":\"a\\\\b\\n\\t\\u0001\\u001fé€/\"}"
    );
}
