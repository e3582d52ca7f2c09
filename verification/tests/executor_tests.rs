use rbm::config::{APIBody, APIBodyType, APIConfig, APIContext, APIEndpoint, APIMethod, AuthEndpoint};
use rbm::error::ExecutorError;
use rbm::executor::{load_file_body, map_response, Engine, ResolvedBody};

fn endpoint(method: APIMethod, url: &str, headers: Vec<(&str, &str)>, body: Option<APIBody>, auth: Option<AuthEndpoint>) -> APIEndpoint {
    let headers = if headers.is_empty() {
        None
    } else {
        Some(headers.into_iter().map(|(k, v)| (k.to_string(), v.to_string())).collect())
    };
    APIEndpoint { method, url: url.to_string(), headers, body, auth }
}

fn group(pairs: Vec<(&str, &str)>) -> APIContext {
    pairs.into_iter().map(|(k, v)| (k.to_string(), v.to_string())).collect()
}

fn single_endpoint_config(name: &str, ep: APIEndpoint, contexts: Vec<(&str, APIContext)>) -> APIConfig {
    let contexts = if contexts.is_empty() {
        None
    } else {
        Some(contexts.into_iter().map(|(n, g)| (n.to_string(), g)).collect())
    };
    APIConfig::new(contexts, vec![(name.to_string(), ep)])
}

#[test]
fn context_group_overrides_adhoc_input() {
    let ep = endpoint(APIMethod::GET, "{{x}}", vec![], None, None);
    let config = single_endpoint_config("e", ep, vec![("local", group(vec![("x", "2")]))]);
    let mut engine = Engine::new();
    let inputs = vec![("x".to_string(), "1".to_string())];
    let plan = engine.prepare(&config, "e", &Some("local".to_string()), &inputs).unwrap();
    assert_eq!(plan.url, "2");
}

#[test]
fn adhoc_input_used_when_group_lacks_key() {
    let ep = endpoint(APIMethod::GET, "{{x}}/{{y}}", vec![], None, None);
    let config = single_endpoint_config("e", ep, vec![("local", group(vec![("y", "two")]))]);
    let mut engine = Engine::new();
    let inputs = vec![("x".to_string(), "one".to_string())];
    let plan = engine.prepare(&config, "e", &Some("local".to_string()), &inputs).unwrap();
    assert_eq!(plan.url, "one/two");
}

#[test]
fn reserved_context_key_names_selected_context() {
    let ep = endpoint(APIMethod::GET, "ctx={{context}}", vec![], None, None);
    let config = single_endpoint_config("e", ep, vec![]);
    let mut engine = Engine::new();
    let plan = engine.prepare(&config, "e", &Some("local".to_string()), &vec![]).unwrap();
    assert_eq!(plan.url, "ctx=local");
}

#[test]
fn unknown_context_name_is_not_an_error() {
    let ep = endpoint(APIMethod::GET, "{{x}}", vec![], None, None);
    let config = single_endpoint_config("e", ep, vec![("other", group(vec![("x", "9")]))]);
    let mut engine = Engine::new();
    let inputs = vec![("x".to_string(), "5".to_string())];
    let plan = engine.prepare(&config, "e", &Some("nosuch".to_string()), &inputs).unwrap();
    assert_eq!(plan.url, "5");
}

#[test]
fn string_body_resolves_to_literal_payload() {
    let body = APIBody::new("{{body}}", APIBodyType::STRING);
    let ep = endpoint(APIMethod::POST, "http://h/x", vec![], Some(body), None);
    let config = single_endpoint_config("e", ep, vec![("c", group(vec![("body", "hello")]))]);
    let mut engine = Engine::new();
    let plan = engine.prepare(&config, "e", &Some("c".to_string()), &vec![]).unwrap();
    match plan.body {
        Some(ResolvedBody::Text(payload)) => assert_eq!(payload, "hello"),
        _ => panic!("expected a literal text payload"),
    }
}

#[test]
fn file_body_resolves_to_path() {
    let body = APIBody::new("/tmp/{{name}}.json", APIBodyType::FILE);
    let ep = endpoint(APIMethod::POST, "http://h/x", vec![], Some(body), None);
    let config = single_endpoint_config("e", ep, vec![("c", group(vec![("name", "data")]))]);
    let mut engine = Engine::new();
    let plan = engine.prepare(&config, "e", &Some("c".to_string()), &vec![]).unwrap();
    match plan.body {
        Some(ResolvedBody::FilePath(path)) => assert_eq!(path, "/tmp/data.json"),
        _ => panic!("expected a file path payload"),
    }
}

#[test]
fn missing_endpoint_fails_before_any_resolution() {
    let ep = endpoint(APIMethod::GET, "{{x}}", vec![], None, None);
    let config = single_endpoint_config("e", ep, vec![]);
    let mut engine = Engine::new();
    let out = engine.prepare(&config, "nosuch", &None, &vec![]);
    match out {
        Err(ExecutorError::EndpointNotFound(name)) => assert_eq!(name, "nosuch"),
        _ => panic!("expected endpoint-not-found"),
    }
}

#[test]
fn unresolvable_url_fails_with_template_error() {
    let ep = endpoint(APIMethod::GET, "http://{{host}}/x", vec![], None, None);
    let config = single_endpoint_config("e", ep, vec![]);
    let mut engine = Engine::new();
    let out = engine.prepare(&config, "e", &None, &vec![]);
    match out {
        Err(ExecutorError::TemplateError(tpl)) => assert_eq!(tpl, "http://{{host}}/x"),
        _ => panic!("expected a template error"),
    }
}

#[test]
fn basic_auth_credentials_are_resolved() {
    let auth = AuthEndpoint::Basic { username: "{{user}}".to_string(), password: "{{pass}}".to_string() };
    let ep = endpoint(APIMethod::GET, "http://h/x", vec![], None, Some(auth));
    let config = single_endpoint_config(
        "e",
        ep,
        vec![("c", group(vec![("user", "alice"), ("pass", "s3cret")]))],
    );
    let mut engine = Engine::new();
    let plan = engine.prepare(&config, "e", &Some("c".to_string()), &vec![]).unwrap();
    let creds = plan.auth.expect("credentials expected");
    assert_eq!(creds.username, "alice");
    assert_eq!(creds.password, "s3cret");
}

#[test]
fn unimplemented_auth_scheme_is_a_noop() {
    let ep = endpoint(APIMethod::GET, "http://h/x", vec![], None, Some(AuthEndpoint::Other));
    let config = single_endpoint_config("e", ep, vec![]);
    let mut engine = Engine::new();
    let plan = engine.prepare(&config, "e", &None, &vec![]).unwrap();
    assert!(plan.auth.is_none());
}

#[test]
fn prepared_post_expansion_matches_endpoint() {
    let body = APIBody::new("{{body}}", APIBodyType::STRING);
    let ep = endpoint(
        APIMethod::POST,
        "http://{{host}}/x",
        vec![("Authorization", "{{tok}}")],
        Some(body),
        None,
    );
    let config = single_endpoint_config(
        "test_endpoint",
        ep,
        vec![(
            "local",
            group(vec![("host", "127.0.0.1:9000"), ("tok", "foo"), ("body", "payload")]),
        )],
    );
    let mut engine = Engine::new();
    let plan = engine
        .prepare(&config, "test_endpoint", &Some("local".to_string()), &vec![])
        .unwrap();
    assert!(matches!(plan.method, APIMethod::POST));
    assert_eq!(plan.url, "http://127.0.0.1:9000/x");
    assert_eq!(plan.headers.len(), 1);
    assert_eq!(plan.headers[0].0, "Authorization");
    assert_eq!(plan.headers[0].1, "foo");
    match plan.body {
        Some(ResolvedBody::Text(payload)) => assert_eq!(payload, "payload"),
        _ => panic!("expected a literal text payload"),
    }
}

#[test]
fn map_response_copies_everything_through() {
    let raw_headers = vec![
        ("Content-Type".to_string(), b"text/plain".to_vec()),
        ("X-Accent".to_string(), "héllo".as_bytes().to_vec()),
    ];
    let resp = map_response(200, "HTTP/1.1".to_string(), &raw_headers, Ok(b"abc".to_vec())).unwrap();
    assert_eq!(resp.status, 200);
    assert_eq!(resp.version, "HTTP/1.1");
    assert_eq!(resp.headers.len(), 2);
    assert_eq!(resp.headers[0].key, "Content-Type");
    assert_eq!(resp.headers[0].value, "text/plain");
    assert_eq!(resp.headers[1].key, "X-Accent");
    assert_eq!(resp.headers[1].value, "héllo");
    assert_eq!(resp.body, b"abc".to_vec());
}

#[test]
fn map_response_accepts_empty_body() {
    let resp = map_response(204, "HTTP/2.0".to_string(), &vec![], Ok(vec![])).unwrap();
    assert!(resp.body.is_empty());
    assert!(resp.headers.is_empty());
}

#[test]
fn invalid_header_bytes_fail_naming_the_header() {
    let raw_headers = vec![
        ("Fine".to_string(), b"ok".to_vec()),
        ("X-Bin".to_string(), vec![0xff, 0xfe, 0x01]),
        ("Later".to_string(), b"also ok".to_vec()),
    ];
    let out = map_response(200, "HTTP/1.1".to_string(), &raw_headers, Ok(vec![]));
    match out {
        Err(ExecutorError::FailedToParseHeader(name, _diag)) => assert_eq!(name, "X-Bin"),
        _ => panic!("expected a header parse failure, not a partial response"),
    }
}

#[test]
fn failed_body_read_maps_to_typed_error() {
    let out = map_response(200, "HTTP/1.1".to_string(), &vec![], Err("connection reset".to_string()));
    match out {
        Err(ExecutorError::FailedToReadBody(diag)) => assert_eq!(diag, "connection reset"),
        _ => panic!("expected a body read failure"),
    }
}

#[test]
fn file_body_read_failure_is_a_file_body_error() {
    let path = "/no/such/file".to_string();
    let out = load_file_body(&path, Err("No such file or directory".to_string()));
    match out {
        Err(ExecutorError::FileBodyError(p, diag)) => {
            assert_eq!(p, "/no/such/file");
            assert_eq!(diag, "No such file or directory");
        },
        _ => panic!("expected a file body error"),
    }
}

#[test]
fn file_body_bytes_become_the_payload() {
    let path = "/tmp/data.bin".to_string();
    let payload = load_file_body(&path, Ok(vec![1, 2, 3])).unwrap();
    assert_eq!(payload, vec![1, 2, 3]);
}

#[test]
fn error_messages_are_exact() {
    assert_eq!(
        ExecutorError::APINotFound("a".to_string()).message(),
        "API not found: a"
    );
    assert_eq!(
        ExecutorError::EndpointNotFound("e".to_string()).message(),
        "Endpoint not found: e"
    );
    assert_eq!(
        ExecutorError::HTTPRequestError("boom".to_string()).message(),
        "HTTP Request error: boom"
    );
    assert_eq!(
        ExecutorError::FailedToParseHeader("h".to_string(), "bad".to_string()).message(),
        "Failed to parse header: h. Err: bad"
    );
    assert_eq!(
        ExecutorError::FailedToReadBody("eof".to_string()).message(),
        "Failed to read body: eof"
    );
    assert_eq!(
        ExecutorError::FailedToPrintBody("pipe".to_string()).message(),
        "Failed to write body into stdout: pipe"
    );
    assert_eq!(
        ExecutorError::TemplateError("{{x}}".to_string()).message(),
        "Failed to resolve template: {{x}}"
    );
    assert_eq!(
        ExecutorError::FileBodyError("/p".to_string(), "gone".to_string()).message(),
        "Failed to read body file: /p. Err: gone"
    );
}
