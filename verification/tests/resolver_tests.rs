use rbm::error::ExecutorError;
use rbm::resolver;
use rbm::resolver::Resolver;

#[test]
fn resolve_without_placeholders_is_identity() {
    let mut r = resolver::new();
    r.add_context("unused".to_string(), "value");
    let out = r.resolve("http://example.com/foo?a=1").unwrap();
    assert_eq!(out, "http://example.com/foo?a=1");
}

#[test]
fn resolve_empty_template_is_identity() {
    let mut r = resolver::new();
    let out = r.resolve("").unwrap();
    assert_eq!(out, "");
}

#[test]
fn resolve_substitutes_single_placeholder() {
    let mut r = resolver::new();
    r.add_context("body".to_string(), "hello");
    let out = r.resolve("{{body}}").unwrap();
    assert_eq!(out, "hello");
}

#[test]
fn resolve_trims_spaces_around_key() {
    let mut r = resolver::new();
    r.add_context("name".to_string(), "world");
    let out = r.resolve("hello {{ name }}!").unwrap();
    assert_eq!(out, "hello world!");
}

#[test]
fn resolve_substitutes_several_placeholders() {
    let mut r = resolver::new();
    r.add_context("host".to_string(), "localhost:8080");
    r.add_context("path".to_string(), "foo/bar");
    let out = r.resolve("http://{{host}}/{{path}}").unwrap();
    assert_eq!(out, "http://localhost:8080/foo/bar");
}

#[test]
fn last_write_wins_for_repeated_key() {
    let mut r = resolver::new();
    r.add_context("k".to_string(), "first");
    r.add_context("k".to_string(), "second");
    let out = r.resolve("{{k}}").unwrap();
    assert_eq!(out, "second");
}

#[test]
fn unset_key_fails_with_template_error() {
    let mut r = resolver::new();
    r.add_context("present".to_string(), "x");
    let out = r.resolve("a {{missing}} b");
    match out {
        Err(ExecutorError::TemplateError(tpl)) => assert_eq!(tpl, "a {{missing}} b"),
        _ => panic!("expected a template error"),
    }
}

#[test]
fn unset_key_never_yields_empty_substitution() {
    let mut r = resolver::new();
    let out = r.resolve("left{{gone}}right");
    assert!(out.is_err());
}

#[test]
fn unclosed_placeholder_fails_with_template_error() {
    let mut r = resolver::new();
    r.add_context("k".to_string(), "v");
    let out = r.resolve("start {{k");
    assert!(matches!(out, Err(ExecutorError::TemplateError(_))));
}

#[test]
fn substituted_value_is_not_rescanned() {
    let mut r = resolver::new();
    r.add_context("outer".to_string(), "{{inner}}");
    let out = r.resolve("{{outer}}").unwrap();
    assert_eq!(out, "{{inner}}");
}
