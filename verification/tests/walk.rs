//! Discovery rules: which paths are test code or excluded, and which
//! contents are generated or minified.

use dupehound::walk::{content_skip_reason, default_excluded, is_test_path};

#[test]
fn test_paths_are_detected() {
    assert!(is_test_path("pkg/server_test.go"));
    assert!(is_test_path("src/__tests__/api.ts"));
    assert!(is_test_path("src/api.spec.ts"));
    assert!(is_test_path("tests/test_models.py"));
    assert!(is_test_path("src/components/Button.test.tsx"));
    assert!(!is_test_path("src/api/testimonials.ts"));
    assert!(!is_test_path("src/contest.rs"));
    assert!(is_test_path("spec/user_spec.rb"));
    assert!(is_test_path("test/auth_test.rb"));
    assert!(is_test_path("Tests/AppTests.swift"));
    assert!(is_test_path("spec/api_spec.swift"));
    assert!(is_test_path("tests/UserTest.php"));
    assert!(is_test_path("tests/auth_test.php"));
}

#[test]
fn generated_and_minified_content_is_skipped() {
    assert_eq!(
        content_skip_reason("// Code generated by protoc. DO NOT EDIT.\npackage x"),
        Some("generated")
    );
    let minified = format!("var a={};", "x".repeat(3000));
    assert_eq!(content_skip_reason(&minified), Some("minified"));
    assert_eq!(
        content_skip_reason("function ok() {\n  return 1;\n}\n"),
        None
    );
}
